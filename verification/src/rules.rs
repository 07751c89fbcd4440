//! Composite rule sets: validation, compilation, and evaluation against
//! physical lines with one-modifier-one-condition semantics.
//!
//! A rule set is a list of acceptable results. Each acceptable result is a
//! group of affix conditions (a template and numeric constraints per slot) and
//! a mode: any condition, all conditions, or at least a chosen number. The
//! first acceptable result that is met is the reported match. Within a group
//! one physical modifier can satisfy at most one condition.
use vstd::prelude::*;

use crate::decimal::Decimal;
use crate::matching::{
    affix_views, display, shape_of, AffixTokenKind, AffixTemplateError, FullLineAffixMatcher,
};
use crate::text::{decimal, push_decimal, push_str_chars, trim, trim_chars};

verus! {

/// The schema version this library reads and writes.
pub const CURRENT_SCHEMA_VERSION: u32 = 1;

/// Acceptable results that may be monitored at once.
pub const MAXIMUM_GROUPS: usize = 8;

/// Enabled conditions that may be monitored at once.
pub const MAXIMUM_CONDITIONS: usize = 32;

/// Acceptable results a rule set may keep, enabled or not.
pub const MAXIMUM_SAVED_GROUPS: usize = 128;

/// Conditions a rule set may keep, enabled or not.
pub const MAXIMUM_SAVED_CONDITIONS: usize = 1024;

// ---------------------------------------------------------------------------
// Definitions
// ---------------------------------------------------------------------------

/// How a numeric slot is restricted.
#[derive(Clone, Copy, Debug, PartialEq, Eq, Structural)]
pub enum NumericConstraintMode {
    Ignore,
    RangeInclusive,
    AtLeast,
    AtMost,
    Exactly,
}

impl Default for NumericConstraintMode {
    fn default() -> (m: NumericConstraintMode)
        ensures
            m == NumericConstraintMode::Ignore,
    {
        NumericConstraintMode::Ignore
    }
}

/// A restriction on the value one numeric slot displays. Bounds are inclusive.
#[derive(Clone, Copy, Debug, PartialEq, Eq, Structural)]
pub struct NumericConstraint {
    pub mode: NumericConstraintMode,
    pub minimum: Option<Decimal>,
    pub maximum: Option<Decimal>,
    pub expected: Option<Decimal>,
}

impl Default for NumericConstraint {
    fn default() -> (c: NumericConstraint)
        ensures
            c == NumericConstraint::ignored_spec(),
    {
        NumericConstraint::ignored()
    }
}

impl NumericConstraint {
    pub open spec fn ignored_spec() -> NumericConstraint {
        NumericConstraint {
            mode: NumericConstraintMode::Ignore,
            minimum: None,
            maximum: None,
            expected: None,
        }
    }

    /// A slot whose value does not matter.
    pub fn ignored() -> (c: NumericConstraint)
        ensures
            c == NumericConstraint::ignored_spec(),
    {
        NumericConstraint {
            mode: NumericConstraintMode::Ignore,
            minimum: None,
            maximum: None,
            expected: None,
        }
    }

    /// `minimum <= value <= maximum`.
    pub fn range(minimum: Decimal, maximum: Decimal) -> (c: NumericConstraint)
        ensures
            c == (NumericConstraint {
                mode: NumericConstraintMode::RangeInclusive,
                minimum: Some(minimum),
                maximum: Some(maximum),
                expected: None,
            }),
    {
        NumericConstraint {
            mode: NumericConstraintMode::RangeInclusive,
            minimum: Some(minimum),
            maximum: Some(maximum),
            expected: None,
        }
    }

    /// `minimum <= value`.
    pub fn at_least(minimum: Decimal) -> (c: NumericConstraint)
        ensures
            c == (NumericConstraint {
                mode: NumericConstraintMode::AtLeast,
                minimum: Some(minimum),
                maximum: None,
                expected: None,
            }),
    {
        NumericConstraint {
            mode: NumericConstraintMode::AtLeast,
            minimum: Some(minimum),
            maximum: None,
            expected: None,
        }
    }

    /// `value <= maximum`.
    pub fn at_most(maximum: Decimal) -> (c: NumericConstraint)
        ensures
            c == (NumericConstraint {
                mode: NumericConstraintMode::AtMost,
                minimum: None,
                maximum: Some(maximum),
                expected: None,
            }),
    {
        NumericConstraint {
            mode: NumericConstraintMode::AtMost,
            minimum: None,
            maximum: Some(maximum),
            expected: None,
        }
    }

    /// `value == expected`.
    pub fn exactly(expected: Decimal) -> (c: NumericConstraint)
        ensures
            c == (NumericConstraint {
                mode: NumericConstraintMode::Exactly,
                minimum: None,
                maximum: None,
                expected: Some(expected),
            }),
    {
        NumericConstraint {
            mode: NumericConstraintMode::Exactly,
            minimum: None,
            maximum: None,
            expected: Some(expected),
        }
    }
}

/// A constraint can be checked: the bounds its mode reads are present (and a
/// range's bounds are in order).
pub open spec fn constraint_valid(c: NumericConstraint) -> bool {
    match c.mode {
        NumericConstraintMode::Ignore => true,
        NumericConstraintMode::RangeInclusive => c.minimum is Some && c.maximum is Some
            && c.minimum.unwrap()@ <= c.maximum.unwrap()@,
        NumericConstraintMode::AtLeast => c.minimum is Some,
        NumericConstraintMode::AtMost => c.maximum is Some,
        NumericConstraintMode::Exactly => c.expected is Some,
    }
}

/// A displayed value (in units; `None` when no value could be read)
/// satisfies a constraint.
pub open spec fn constraint_holds(c: NumericConstraint, actual: Option<int>) -> bool {
    match c.mode {
        NumericConstraintMode::Ignore => true,
        NumericConstraintMode::RangeInclusive => actual is Some && c.minimum is Some
            && c.maximum is Some && c.minimum.unwrap()@ <= actual.unwrap()
            && actual.unwrap() <= c.maximum.unwrap()@,
        NumericConstraintMode::AtLeast => actual is Some && c.minimum is Some
            && c.minimum.unwrap()@ <= actual.unwrap(),
        NumericConstraintMode::AtMost => actual is Some && c.maximum is Some && actual.unwrap()
            <= c.maximum.unwrap()@,
        NumericConstraintMode::Exactly => actual is Some && c.expected is Some && actual.unwrap()
            == c.expected.unwrap()@,
    }
}

/// How narrowly a constraint pins a value; used to try the most specific
/// conditions first when modifiers are shared out.
pub open spec fn specificity(c: NumericConstraint) -> nat {
    match c.mode {
        NumericConstraintMode::Exactly => 4,
        NumericConstraintMode::RangeInclusive => 3,
        NumericConstraintMode::AtLeast => 2,
        NumericConstraintMode::AtMost => 2,
        NumericConstraintMode::Ignore => 0,
    }
}

fn valid_constraint(c: &NumericConstraint) -> (b: bool)
    ensures
        b == constraint_valid(*c),
{
    match c.mode {
        NumericConstraintMode::Ignore => true,
        NumericConstraintMode::RangeInclusive => match (c.minimum, c.maximum) {
            (Some(low), Some(high)) => low.is_at_most(&high),
            _ => false,
        },
        NumericConstraintMode::AtLeast => c.minimum.is_some(),
        NumericConstraintMode::AtMost => c.maximum.is_some(),
        NumericConstraintMode::Exactly => c.expected.is_some(),
    }
}

pub open spec fn units_of(v: Option<Decimal>) -> Option<int> {
    match v {
        Some(d) => Some(d@),
        None => None,
    }
}

fn constraint_satisfied(c: &NumericConstraint, actual: Option<Decimal>) -> (b: bool)
    ensures
        b == constraint_holds(*c, units_of(actual)),
{
    match c.mode {
        NumericConstraintMode::Ignore => true,
        NumericConstraintMode::RangeInclusive => match (actual, c.minimum, c.maximum) {
            (Some(v), Some(low), Some(high)) => low.is_at_most(&v) && v.is_at_most(&high),
            _ => false,
        },
        NumericConstraintMode::AtLeast => match (actual, c.minimum) {
            (Some(v), Some(low)) => low.is_at_most(&v),
            _ => false,
        },
        NumericConstraintMode::AtMost => match (actual, c.maximum) {
            (Some(v), Some(high)) => v.is_at_most(&high),
            _ => false,
        },
        NumericConstraintMode::Exactly => match (actual, c.expected) {
            (Some(v), Some(e)) => v.same_value(&e),
            _ => false,
        },
    }
}

fn constraint_specificity(c: &NumericConstraint) -> (n: usize)
    ensures
        n == specificity(*c),
{
    match c.mode {
        NumericConstraintMode::Exactly => 4,
        NumericConstraintMode::RangeInclusive => 3,
        NumericConstraintMode::AtLeast => 2,
        NumericConstraintMode::AtMost => 2,
        NumericConstraintMode::Ignore => 0,
    }
}

/// One affix a rule looks for: a template, a constraint per numeric slot
/// (missing constraints ignore their slot), and whether it is enabled. A
/// disabled condition is kept in the rule set but takes no part in matching.
#[derive(Clone, Debug, PartialEq, Eq)]
pub struct AffixCondition {
    pub name: String,
    pub template: String,
    pub numeric_constraints: Vec<NumericConstraint>,
    pub enabled: bool,
}

pub struct ConditionView {
    pub name: Seq<char>,
    pub template: Seq<char>,
    pub constraints: Seq<NumericConstraint>,
    pub enabled: bool,
}

impl View for AffixCondition {
    type V = ConditionView;

    open spec fn view(&self) -> ConditionView {
        ConditionView {
            name: self.name@,
            template: self.template@,
            constraints: self.numeric_constraints@,
            enabled: self.enabled,
        }
    }
}

impl Default for AffixCondition {
    fn default() -> (c: AffixCondition)
        ensures
            c.name@ == Seq::<char>::empty(),
            c.template@ == Seq::<char>::empty(),
            c.numeric_constraints@ == Seq::<NumericConstraint>::empty(),
            c.enabled,
    {
        AffixCondition {
            name: String::new(),
            template: String::new(),
            numeric_constraints: Vec::new(),
            enabled: true,
        }
    }
}

impl AffixCondition {
    /// An enabled condition.
    pub fn new(name: &str, template: &str, numeric_constraints: Vec<NumericConstraint>) -> (c:
        AffixCondition)
        ensures
            c.name@ == name@,
            c.template@ == template@,
            c.numeric_constraints@ == numeric_constraints@,
            c.enabled,
    {
        AffixCondition {
            name: name.to_string(),
            template: template.to_string(),
            numeric_constraints,
            enabled: true,
        }
    }
}

/// How many enabled conditions an acceptable result needs.
#[derive(Clone, Copy, Debug, PartialEq, Eq, Structural)]
pub enum ResultGroupMode {
    Any,
    All,
    AtLeast,
}

impl Default for ResultGroupMode {
    fn default() -> (m: ResultGroupMode)
        ensures
            m == ResultGroupMode::Any,
    {
        ResultGroupMode::Any
    }
}

/// One acceptable result: a group of conditions and how many must hold.
#[derive(Clone, Debug, PartialEq, Eq)]
pub struct AcceptableResultGroup {
    pub name: String,
    pub mode: ResultGroupMode,
    /// The count `AtLeast` asks for.
    pub required_count: usize,
    pub conditions: Vec<AffixCondition>,
}

pub struct GroupDefinitionView {
    pub name: Seq<char>,
    pub mode: ResultGroupMode,
    pub required_count: usize,
    pub conditions: Seq<ConditionView>,
}

pub open spec fn condition_views(v: Seq<AffixCondition>) -> Seq<ConditionView> {
    v.map_values(|c: AffixCondition| c@)
}

impl View for AcceptableResultGroup {
    type V = GroupDefinitionView;

    open spec fn view(&self) -> GroupDefinitionView {
        GroupDefinitionView {
            name: self.name@,
            mode: self.mode,
            required_count: self.required_count,
            conditions: condition_views(self.conditions@),
        }
    }
}

impl Default for AcceptableResultGroup {
    fn default() -> (g: AcceptableResultGroup)
        ensures
            g.name@ == Seq::<char>::empty(),
            g.mode == ResultGroupMode::Any,
            g.required_count == 1,
            g.conditions@ == Seq::<AffixCondition>::empty(),
    {
        AcceptableResultGroup {
            name: String::new(),
            mode: ResultGroupMode::Any,
            required_count: 1,
            conditions: Vec::new(),
        }
    }
}

/// A saved rule set: acceptable results in priority order.
#[derive(Clone, Debug, PartialEq, Eq)]
pub struct RuleSetDefinition {
    pub schema_version: u32,
    pub name: String,
    pub groups: Vec<AcceptableResultGroup>,
}

pub struct DefinitionView {
    pub schema_version: u32,
    pub name: Seq<char>,
    pub groups: Seq<GroupDefinitionView>,
}

pub open spec fn group_definition_views(v: Seq<AcceptableResultGroup>) -> Seq<GroupDefinitionView> {
    v.map_values(|g: AcceptableResultGroup| g@)
}

impl View for RuleSetDefinition {
    type V = DefinitionView;

    open spec fn view(&self) -> DefinitionView {
        DefinitionView {
            schema_version: self.schema_version,
            name: self.name@,
            groups: group_definition_views(self.groups@),
        }
    }
}

impl Default for RuleSetDefinition {
    fn default() -> (d: RuleSetDefinition)
        ensures
            d.schema_version == CURRENT_SCHEMA_VERSION,
            d.name@ == Seq::<char>::empty(),
            d.groups@ == Seq::<AcceptableResultGroup>::empty(),
    {
        RuleSetDefinition {
            schema_version: CURRENT_SCHEMA_VERSION,
            name: String::new(),
            groups: Vec::new(),
        }
    }
}

/// Which physical band (one modifier as the source saw it) a line belongs to.
#[derive(Clone, Debug, PartialEq, Eq)]
pub struct PhysicalLineIdentity {
    pub line_index: usize,
    pub physical_band_id: String,
}

/// A modifier a recognizer already tied to a canonical template, with the
/// bands it was read from.
#[derive(Clone, Debug, PartialEq, Eq)]
pub struct AssistedModifierObservation {
    pub physical_band_id: String,
    pub original_text: String,
    pub canonical_target: String,
    pub related_physical_band_ids: Vec<String>,
}

impl AssistedModifierObservation {
    /// An observation with no related bands.
    pub fn new(physical_band_id: &str, original_text: &str, canonical_target: &str) -> (o:
        AssistedModifierObservation)
        ensures
            o.physical_band_id@ == physical_band_id@,
            o.original_text@ == original_text@,
            o.canonical_target@ == canonical_target@,
            o.related_physical_band_ids@.len() == 0,
    {
        AssistedModifierObservation {
            physical_band_id: physical_band_id.to_string(),
            original_text: original_text.to_string(),
            canonical_target: canonical_target.to_string(),
            related_physical_band_ids: Vec::new(),
        }
    }
}

// ---------------------------------------------------------------------------
// Validation
// ---------------------------------------------------------------------------

pub open spec fn enabled_count(conds: Seq<ConditionView>) -> nat
    decreases conds.len(),
{
    if conds.len() == 0 {
        0
    } else {
        enabled_count(conds.drop_last()) + if conds.last().enabled {
            1nat
        } else {
            0nat
        }
    }
}

pub open spec fn saved_condition_total(groups: Seq<GroupDefinitionView>) -> nat
    decreases groups.len(),
{
    if groups.len() == 0 {
        0
    } else {
        saved_condition_total(groups.drop_last()) + groups.last().conditions.len()
    }
}

pub open spec fn enabled_total(groups: Seq<GroupDefinitionView>) -> nat
    decreases groups.len(),
{
    if groups.len() == 0 {
        0
    } else {
        enabled_total(groups.drop_last()) + enabled_count(groups.last().conditions)
    }
}

/// Acceptable results with at least one enabled condition.
pub open spec fn active_group_count(groups: Seq<GroupDefinitionView>) -> nat
    decreases groups.len(),
{
    if groups.len() == 0 {
        0
    } else {
        active_group_count(groups.drop_last()) + if enabled_count(groups.last().conditions) > 0 {
            1nat
        } else {
            0nat
        }
    }
}

pub open spec fn if_then(b: bool, m: Seq<char>) -> Seq<Seq<char>> {
    if b {
        seq![m]
    } else {
        Seq::empty()
    }
}

pub open spec fn ordinal(i: int) -> Seq<char> {
    decimal((i + 1) as nat)
}

pub open spec fn quoted(name: Seq<char>) -> Seq<char> {
    seq!['\''] + name + seq!['\'']
}

pub open spec fn span_message() -> Seq<char> {
    "line span must be between 1 and 8"@
}

pub open spec fn schema_message(v: u32) -> Seq<char> {
    "unsupported rule schema version "@ + decimal(v as nat)
}

pub open spec fn no_groups_message() -> Seq<char> {
    "a rule set must contain at least one acceptable result"@
}

pub open spec fn saved_groups_message() -> Seq<char> {
    "a rule set can save at most 128 acceptable results"@
}

pub open spec fn saved_conditions_message() -> Seq<char> {
    "a rule set can save at most 1024 conditions"@
}

pub open spec fn active_groups_message() -> Seq<char> {
    "a rule set can monitor at most 8 acceptable results at once"@
}

pub open spec fn enabled_conditions_message() -> Seq<char> {
    "a rule set can monitor at most 32 enabled conditions"@
}

pub open spec fn nothing_enabled_message() -> Seq<char> {
    "a rule set needs at least one enabled condition"@
}

pub open spec fn duplicate_group_message(name: Seq<char>) -> Seq<char> {
    "acceptable result name "@ + quoted(name) + " is duplicated"@
}

pub open spec fn empty_group_message(i: int) -> Seq<char> {
    "acceptable result "@ + ordinal(i) + " has no conditions"@
}

pub open spec fn required_count_message(i: int, enabled: nat) -> Seq<char> {
    "acceptable result "@ + ordinal(i) + " requires between 1 and "@ + decimal(enabled)
        + " enabled conditions"@
}

pub open spec fn duplicate_condition_message(i: int, name: Seq<char>) -> Seq<char> {
    "acceptable result "@ + ordinal(i) + " contains duplicate condition name "@ + quoted(name)
}

pub open spec fn empty_template_message(i: int, j: int) -> Seq<char> {
    "acceptable result "@ + ordinal(i) + ", condition "@ + ordinal(j) + " has an empty template"@
}

/// Errors that concern the rule set as a whole.
pub open spec fn set_errors(d: DefinitionView, span: int) -> Seq<Seq<char>> {
    let groups = d.groups;
    if_then(!(1 <= span <= 8), span_message()) + if_then(
        d.schema_version != CURRENT_SCHEMA_VERSION,
        schema_message(d.schema_version),
    ) + if_then(groups.len() == 0, no_groups_message()) + if_then(
        groups.len() > MAXIMUM_SAVED_GROUPS,
        saved_groups_message(),
    ) + if_then(saved_condition_total(groups) > MAXIMUM_SAVED_CONDITIONS, saved_conditions_message())
        + if_then(active_group_count(groups) > MAXIMUM_GROUPS, active_groups_message()) + if_then(
        enabled_total(groups) > MAXIMUM_CONDITIONS,
        enabled_conditions_message(),
    ) + if_then(groups.len() > 0 && enabled_total(groups) == 0, nothing_enabled_message())
}

/// A non-empty trimmed name that an earlier entry already used.
pub open spec fn repeats_group_name(groups: Seq<GroupDefinitionView>, i: int) -> bool {
    trim(groups[i].name).len() > 0 && exists|k: int|
        0 <= k < i && trim(#[trigger] groups[k].name) == trim(groups[i].name)
}

/// A non-empty trimmed name that an earlier enabled condition already used.
pub open spec fn repeats_condition_name(conds: Seq<ConditionView>, j: int) -> bool {
    trim(conds[j].name).len() > 0 && exists|k: int|
        0 <= k < j && conds[k].enabled && trim(#[trigger] conds[k].name) == trim(conds[j].name)
}

/// Errors of condition `j` of acceptable result `i`; a disabled condition has none.
pub open spec fn condition_errors(i: int, conds: Seq<ConditionView>, j: int) -> Seq<Seq<char>> {
    if !conds[j].enabled {
        Seq::empty()
    } else {
        if_then(
            repeats_condition_name(conds, j),
            duplicate_condition_message(i, trim(conds[j].name)),
        ) + if_then(trim(conds[j].template).len() == 0, empty_template_message(i, j))
    }
}

pub open spec fn conditions_errors(i: int, conds: Seq<ConditionView>, upto: int) -> Seq<Seq<char>>
    decreases upto,
{
    if upto <= 0 {
        Seq::empty()
    } else {
        conditions_errors(i, conds, upto - 1) + condition_errors(i, conds, upto - 1)
    }
}

/// Errors of acceptable result `i`. The count of an `AtLeast` result is only
/// checked while it has enabled conditions.
pub open spec fn group_errors(groups: Seq<GroupDefinitionView>, i: int) -> Seq<Seq<char>> {
    let g = groups[i];
    let enabled = enabled_count(g.conditions);
    if_then(repeats_group_name(groups, i), duplicate_group_message(trim(g.name))) + if_then(
        g.conditions.len() == 0,
        empty_group_message(i),
    ) + if_then(
        g.mode == ResultGroupMode::AtLeast && enabled > 0 && !(1 <= g.required_count <= enabled),
        required_count_message(i, enabled),
    ) + conditions_errors(i, g.conditions, g.conditions.len() as int)
}

pub open spec fn groups_errors(groups: Seq<GroupDefinitionView>, upto: int) -> Seq<Seq<char>>
    decreases upto,
{
    if upto <= 0 {
        Seq::empty()
    } else {
        groups_errors(groups, upto - 1) + group_errors(groups, upto - 1)
    }
}

/// Every problem that keeps a definition from being compiled with a line
/// span, in the order they are reported.
pub open spec fn definition_errors(d: DefinitionView, span: int) -> Seq<Seq<char>> {
    set_errors(d, span) + groups_errors(d.groups, d.groups.len() as int)
}

/// Every check on acceptable result `i` passes: its trimmed name, when not
/// blank, is its own; it has conditions; an `AtLeast` count lies between 1
/// and its enabled conditions; every enabled condition's trimmed name, when
/// not blank, is its own among the enabled ones, and its template is not
/// blank.
pub open spec fn group_passes(groups: Seq<GroupDefinitionView>, i: int) -> bool {
    let g = groups[i];
    let enabled = enabled_count(g.conditions);
    &&& !repeats_group_name(groups, i)
    &&& g.conditions.len() > 0
    &&& (g.mode == ResultGroupMode::AtLeast && enabled > 0 ==> 1 <= g.required_count <= enabled)
    &&& forall|j: int|
        0 <= j < g.conditions.len() && (#[trigger] g.conditions[j]).enabled ==> !repeats_condition_name(g.conditions, j)
            && trim(g.conditions[j].template).len() > 0
}

/// Every validation check of a definition passes: the line span lies in
/// 1..=8, the schema is current, there are 1 to 128 acceptable results
/// holding at most 1024 conditions, at most 8 of them have enabled
/// conditions, between 1 and 32 conditions are enabled, and every
/// acceptable result passes its own checks.
pub open spec fn checks_pass(d: DefinitionView, span: int) -> bool {
    let groups = d.groups;
    &&& 1 <= span <= 8
    &&& d.schema_version == CURRENT_SCHEMA_VERSION
    &&& 1 <= groups.len() <= MAXIMUM_SAVED_GROUPS
    &&& saved_condition_total(groups) <= MAXIMUM_SAVED_CONDITIONS
    &&& active_group_count(groups) <= MAXIMUM_GROUPS
    &&& 0 < enabled_total(groups) <= MAXIMUM_CONDITIONS
    &&& forall|i: int| 0 <= i < groups.len() ==> #[trigger] group_passes(groups, i)
}

/// A definition that passes validation has a line span of 1 to 8, schema
/// version 1, 1 to 128 acceptable results holding at most 1024 conditions,
/// at most 8 acceptable results with enabled conditions, and 1 to 32
/// enabled conditions; compiling uses a span of 3 unless told otherwise.
pub proof fn validation_limits(d: DefinitionView, span: int)
    ensures
        checks_pass(d, span) ==> {
            &&& 1 <= span <= 8
            &&& d.schema_version == 1
            &&& 1 <= d.groups.len() <= 128
            &&& saved_condition_total(d.groups) <= 1024
            &&& active_group_count(d.groups) <= 8
            &&& 1 <= enabled_total(d.groups) <= 32
        },
        crate::matching::DEFAULT_MAXIMUM_PHYSICAL_LINE_SPAN == 3,
        crate::matching::MAXIMUM_SUPPORTED_PHYSICAL_LINE_SPAN == 8,
{
}

proof fn lemma_conditions_errors_empty(i: int, conds: Seq<ConditionView>, upto: int)
    requires
        0 <= upto <= conds.len(),
    ensures
        (conditions_errors(i, conds, upto).len() == 0) == (forall|j: int|
            0 <= j < upto && (#[trigger] conds[j]).enabled ==> !repeats_condition_name(conds, j) && trim(
                conds[j].template,
            ).len() > 0),
    decreases upto,
{
    if upto > 0 {
        lemma_conditions_errors_empty(i, conds, upto - 1);
    }
}

proof fn lemma_groups_errors_empty(groups: Seq<GroupDefinitionView>, upto: int)
    requires
        0 <= upto <= groups.len(),
    ensures
        (groups_errors(groups, upto).len() == 0) == (forall|i: int| 0 <= i < upto ==> #[trigger] group_passes(groups, i)),
    decreases upto,
{
    if upto > 0 {
        lemma_groups_errors_empty(groups, upto - 1);
        let g = groups[upto - 1];
        lemma_conditions_errors_empty(upto - 1, g.conditions, g.conditions.len() as int);
        assert((group_errors(groups, upto - 1).len() == 0) == group_passes(groups, upto - 1));
        assert(groups_errors(groups, upto).len() == groups_errors(groups, upto - 1).len() + group_errors(
            groups,
            upto - 1,
        ).len());
        if groups_errors(groups, upto).len() == 0 {
            assert forall|i: int| 0 <= i < upto implies #[trigger] group_passes(groups, i) by {
                if i == upto - 1 {
                    assert(group_errors(groups, i).len() == 0);
                }
            }
        }
        if forall|i: int| 0 <= i < upto ==> #[trigger] group_passes(groups, i) {
            assert(group_passes(groups, upto - 1));
            assert forall|i: int| 0 <= i < upto - 1 implies #[trigger] group_passes(groups, i) by {
                assert(group_passes(groups, i));
            }
        }
    }
}

/// Validation finds nothing wrong exactly when every check passes.
pub proof fn validation_passes_exactly_when_checks_pass(d: DefinitionView, span: int)
    ensures
        (definition_errors(d, span).len() == 0) == checks_pass(d, span),
{
    lemma_groups_errors_empty(d.groups, d.groups.len() as int);
}

/// A line span outside 1..=8 is always refused, and the span message comes
/// first.
pub proof fn out_of_range_span_is_refused(d: DefinitionView, span: int, r: Result<CompiledRuleSet, RuleValidationError>)
    requires
        compiled(d, span, r),
        !(1 <= span <= crate::matching::MAXIMUM_SUPPORTED_PHYSICAL_LINE_SPAN),
    ensures
        r matches Err(e) && e.errors@.len() > 0 && e.errors@[0]@ == span_message(),
{
    assert(set_errors(d, span)[0] == span_message());
    assert(definition_errors(d, span)[0] == span_message());
    if let Err(e) = r {
        assert(crate::text::string_views(e.errors@)[0] == e.errors@[0]@);
    }
}

fn push_message(errors: &mut Vec<Vec<char>>, m: Vec<char>)
    ensures
        crate::text::views(final(errors)@) == crate::text::views(old(errors)@).push(m@),
{
    let ghost before = errors@;
    errors.push(m);
    assert(crate::text::views(errors@) =~= crate::text::views(before).push(m@));
}

fn literal(s: &str) -> (out: Vec<char>)
    ensures
        out@ == s@,
{
    crate::text::chars_of(s)
}

fn count_enabled(conds: &Vec<AffixCondition>) -> (n: usize)
    requires
        conds@.len() <= usize::MAX,
    ensures
        n == enabled_count(condition_views(conds@)),
{
    let len = conds.len();
    let mut n: usize = 0;
    let mut i: usize = 0;
    while i < len
        invariant
            len == conds@.len(),
            i <= len,
            n <= i,
            n == enabled_count(condition_views(conds@).take(i as int)),
        decreases len - i,
    {
        assert(condition_views(conds@).take(i + 1).drop_last() =~= condition_views(conds@).take(
            i as int,
        ));
        if conds[i].enabled {
            n = n + 1;
        }
        i = i + 1;
    }
    assert(condition_views(conds@).take(len as int) =~= condition_views(conds@));
    n
}

proof fn lemma_enabled_count_bound(conds: Seq<ConditionView>)
    ensures
        enabled_count(conds) <= conds.len(),
    decreases conds.len(),
{
    if conds.len() > 0 {
        lemma_enabled_count_bound(conds.drop_last());
    }
}

struct Totals {
    saved: u128,
    enabled: u128,
    active: u128,
}

fn totals(groups: &Vec<AcceptableResultGroup>) -> (t: Totals)
    ensures
        t.saved == saved_condition_total(group_definition_views(groups@)),
        t.enabled == enabled_total(group_definition_views(groups@)),
        t.active == active_group_count(group_definition_views(groups@)),
{
    let n = groups.len();
    let mut t = Totals { saved: 0, enabled: 0, active: 0 };
    let mut i: usize = 0;
    while i < n
        invariant
            n == groups@.len(),
            i <= n,
            t.saved <= i * 0x1_0000_0000_0000_0000,
            t.enabled <= t.saved,
            t.active <= i,
            t.saved == saved_condition_total(group_definition_views(groups@).take(i as int)),
            t.enabled == enabled_total(group_definition_views(groups@).take(i as int)),
            t.active == active_group_count(group_definition_views(groups@).take(i as int)),
        decreases n - i,
    {
        let ghost g = group_definition_views(groups@);
        assert(g.take(i + 1).drop_last() =~= g.take(i as int));
        assert(g.take(i + 1).last() == groups@[i as int]@);
        let len = groups[i].conditions.len();
        let e = count_enabled(&groups[i].conditions);
        proof {
            lemma_enabled_count_bound(condition_views(groups@[i as int].conditions@));
        }
        t.saved = t.saved + len as u128;
        t.enabled = t.enabled + e as u128;
        if e > 0 {
            t.active = t.active + 1;
        }
        i = i + 1;
    }
    assert(group_definition_views(groups@).take(n as int) =~= group_definition_views(groups@));
    t
}

fn push_ordinal(out: &mut Vec<char>, i: usize)
    requires
        i < usize::MAX,
    ensures
        final(out)@ == old(out)@ + ordinal(i as int),
{
    push_decimal(out, i as u64 + 1);
}

fn push_quoted(out: &mut Vec<char>, name: &Vec<char>)
    ensures
        final(out)@ == old(out)@ + quoted(name@),
{
    let ghost start = out@;
    out.push('\'');
    crate::text::push_all(out, name.as_slice());
    out.push('\'');
    assert(out@ =~= start + quoted(name@));
}

fn schema_message_chars(v: u32) -> (m: Vec<char>)
    ensures
        m@ == schema_message(v),
{
    let mut m = literal("unsupported rule schema version ");
    push_decimal(&mut m, v as u64);
    m
}

fn duplicate_group_message_chars(name: &Vec<char>) -> (m: Vec<char>)
    ensures
        m@ == duplicate_group_message(name@),
{
    let mut m = literal("acceptable result name ");
    push_quoted(&mut m, name);
    push_str_chars(&mut m, " is duplicated");
    m
}

fn empty_group_message_chars(i: usize) -> (m: Vec<char>)
    requires
        i < usize::MAX,
    ensures
        m@ == empty_group_message(i as int),
{
    let mut m = literal("acceptable result ");
    push_ordinal(&mut m, i);
    push_str_chars(&mut m, " has no conditions");
    m
}

fn required_count_message_chars(i: usize, enabled: usize) -> (m: Vec<char>)
    requires
        i < usize::MAX,
    ensures
        m@ == required_count_message(i as int, enabled as nat),
{
    let mut m = literal("acceptable result ");
    push_ordinal(&mut m, i);
    push_str_chars(&mut m, " requires between 1 and ");
    push_decimal(&mut m, enabled as u64);
    push_str_chars(&mut m, " enabled conditions");
    m
}

fn duplicate_condition_message_chars(i: usize, name: &Vec<char>) -> (m: Vec<char>)
    requires
        i < usize::MAX,
    ensures
        m@ == duplicate_condition_message(i as int, name@),
{
    let mut m = literal("acceptable result ");
    push_ordinal(&mut m, i);
    push_str_chars(&mut m, " contains duplicate condition name ");
    push_quoted(&mut m, name);
    m
}

fn empty_template_message_chars(i: usize, j: usize) -> (m: Vec<char>)
    requires
        i < usize::MAX,
        j < usize::MAX,
    ensures
        m@ == empty_template_message(i as int, j as int),
{
    let mut m = literal("acceptable result ");
    push_ordinal(&mut m, i);
    push_str_chars(&mut m, ", condition ");
    push_ordinal(&mut m, j);
    push_str_chars(&mut m, " has an empty template");
    m
}

/// Is `names[j]` non-empty and used by an earlier entry whose flag is set?
fn repeats_before(names: &Vec<Vec<char>>, flags: &Vec<bool>, j: usize) -> (b: bool)
    requires
        j < names@.len(),
        flags@.len() == names@.len(),
    ensures
        b == (names@[j as int]@.len() > 0 && exists|k: int|
            0 <= k < j && flags@[k] && #[trigger] names@[k]@ == names@[j as int]@),
{
    if names[j].len() == 0 {
        return false;
    }
    let mut k: usize = 0;
    while k < j
        invariant
            j < names@.len(),
            flags@.len() == names@.len(),
            k <= j,
            names@[j as int]@.len() > 0,
            forall|m: int| 0 <= m < k ==> !(flags@[m] && #[trigger] names@[m]@ == names@[j as int]@),
        decreases j - k,
    {
        if flags[k] && crate::text::same_chars(names[k].as_slice(), names[j].as_slice()) {
            assert(flags@[k as int] && names@[k as int]@ == names@[j as int]@);
            return true;
        }
        k = k + 1;
    }
    false
}

fn trimmed_string(s: &String) -> (out: Vec<char>)
    ensures
        out@ == trim(s@),
{
    let chars = crate::text::chars_of(s.as_str());
    trim_chars(chars.as_slice())
}

fn push_group_errors(errors: &mut Vec<Vec<char>>, groups: &Vec<AcceptableResultGroup>, names: &Vec<Vec<char>>, all: &Vec<bool>, i: usize)
    requires
        i < groups@.len(),
        names@.len() == groups@.len(),
        all@.len() == groups@.len(),
        forall|k: int| 0 <= k < groups@.len() ==> #[trigger] names@[k]@ == trim(groups@[k].name@),
        forall|k: int| 0 <= k < groups@.len() ==> #[trigger] all@[k],
    ensures
        crate::text::views(final(errors)@) == crate::text::views(old(errors)@) + group_errors(
            group_definition_views(groups@),
            i as int,
        ),
{
    let ghost gv = group_definition_views(groups@);
    let ghost start = crate::text::views(errors@);
    let glen = groups.len();
    let group = &groups[i];
    assert(gv[i as int] == group@);
    let repeats = repeats_before(names, all, i);
    assert(repeats == repeats_group_name(gv, i as int)) by {
        if repeats {
            let k = choose|k: int| 0 <= k < i && all@[k] && #[trigger] names@[k]@ == names@[i as int]@;
            assert(gv[k] == groups@[k]@);
            assert(trim(gv[k].name) == trim(gv[i as int].name));
        }
        if repeats_group_name(gv, i as int) {
            let k = choose|k: int| 0 <= k < i && trim(#[trigger] gv[k].name) == trim(gv[i as int].name);
            assert(gv[k] == groups@[k]@);
            assert(names@[k]@ == names@[i as int]@);
        }
    }
    if repeats {
        push_message(errors, duplicate_group_message_chars(&names[i]));
    }
    let conds = &group.conditions;
    let n = conds.len();
    if n == 0 {
        push_message(errors, empty_group_message_chars(i));
    }
    let enabled = count_enabled(conds);
    if group.mode == ResultGroupMode::AtLeast && enabled > 0 && !(1 <= group.required_count
        && group.required_count <= enabled) {
        push_message(errors, required_count_message_chars(i, enabled));
    }
    assert(crate::text::views(errors@) == start + if_then(repeats_group_name(gv, i as int), duplicate_group_message(trim(gv[i as int].name))) + if_then(
        gv[i as int].conditions.len() == 0,
        empty_group_message(i as int),
    ) + if_then(
        gv[i as int].mode == ResultGroupMode::AtLeast && enabled_count(gv[i as int].conditions) > 0 && !(1 <= gv[i as int].required_count <= enabled_count(gv[i as int].conditions)),
        required_count_message(i as int, enabled_count(gv[i as int].conditions)),
    ));
    let mut cnames: Vec<Vec<char>> = Vec::new();
    let mut flags: Vec<bool> = Vec::new();
    let mut j: usize = 0;
    while j < n
        invariant
            n == conds@.len(),
            j <= n,
            cnames@.len() == j,
            flags@.len() == j,
            forall|k: int| 0 <= k < j ==> #[trigger] cnames@[k]@ == trim(conds@[k].name@),
            forall|k: int| 0 <= k < j ==> #[trigger] flags@[k] == conds@[k].enabled,
        decreases n - j,
    {
        cnames.push(trimmed_string(&conds[j].name));
        flags.push(conds[j].enabled);
        j = j + 1;
    }
    let ghost cv = condition_views(conds@);
    assert(cv == gv[i as int].conditions);
    let ghost mid = crate::text::views(errors@);
    let mut j: usize = 0;
    while j < n
        invariant
            n == conds@.len(),
            j <= n,
            i < glen,
            cv == condition_views(conds@),
            cnames@.len() == n,
            flags@.len() == n,
            forall|k: int| 0 <= k < n ==> #[trigger] cnames@[k]@ == trim(conds@[k].name@),
            forall|k: int| 0 <= k < n ==> #[trigger] flags@[k] == conds@[k].enabled,
            crate::text::views(errors@) == mid + conditions_errors(i as int, cv, j as int),
        decreases n - j,
    {
        let ghost before = crate::text::views(errors@);
        assert(cv[j as int] == conds@[j as int]@);
        if conds[j].enabled {
            let repeats = repeats_before(&cnames, &flags, j);
            assert(repeats == repeats_condition_name(cv, j as int)) by {
                if repeats {
                    let k = choose|k: int| 0 <= k < j && flags@[k] && #[trigger] cnames@[k]@ == cnames@[j as int]@;
                    assert(cv[k] == conds@[k]@);
                    assert(cv[j as int] == conds@[j as int]@);
                    assert(trim(cv[k].name) == trim(cv[j as int].name));
                }
                if repeats_condition_name(cv, j as int) {
                    let k = choose|k: int| 0 <= k < j && cv[k].enabled && trim(#[trigger] cv[k].name) == trim(cv[j as int].name);
                    assert(cv[k] == conds@[k]@);
                    assert(cnames@[k]@ == cnames@[j as int]@);
                }
            }
            if repeats {
                push_message(errors, duplicate_condition_message_chars(i, &cnames[j]));
            }
            let template = trimmed_string(&conds[j].template);
            if template.len() == 0 {
                push_message(errors, empty_template_message_chars(i, j));
            }
        }
        assert(crate::text::views(errors@) =~= before + condition_errors(i as int, cv, j as int));
        j = j + 1;
    }
}

/// The problems of the rule set as a whole.
fn whole_set_errors(definition: &RuleSetDefinition, span: usize) -> (errors: Vec<Vec<char>>)
    ensures
        crate::text::views(errors@) == set_errors(definition@, span as int),
{
    let mut errors: Vec<Vec<char>> = Vec::new();
    let ghost d = definition@;
    let groups = &definition.groups;
    if !(1 <= span && span <= 8) {
        push_message(&mut errors, literal("line span must be between 1 and 8"));
    }
    if definition.schema_version != CURRENT_SCHEMA_VERSION {
        push_message(&mut errors, schema_message_chars(definition.schema_version));
    }
    let n = groups.len();
    if n == 0 {
        push_message(&mut errors, literal("a rule set must contain at least one acceptable result"));
    }
    if n > MAXIMUM_SAVED_GROUPS {
        push_message(&mut errors, literal("a rule set can save at most 128 acceptable results"));
    }
    let t = totals(groups);
    if t.saved > MAXIMUM_SAVED_CONDITIONS as u128 {
        push_message(&mut errors, literal("a rule set can save at most 1024 conditions"));
    }
    if t.active > MAXIMUM_GROUPS as u128 {
        push_message(
            &mut errors,
            literal("a rule set can monitor at most 8 acceptable results at once"),
        );
    }
    if t.enabled > MAXIMUM_CONDITIONS as u128 {
        push_message(&mut errors, literal("a rule set can monitor at most 32 enabled conditions"));
    }
    if n > 0 && t.enabled == 0 {
        push_message(&mut errors, literal("a rule set needs at least one enabled condition"));
    }
    assert(crate::text::views(errors@) =~= set_errors(d, span as int));
    errors
}

/// Every problem that keeps `definition` from compiling with `span`.
fn validate_definition(definition: &RuleSetDefinition, span: usize) -> (errors: Vec<Vec<char>>)
    ensures
        crate::text::views(errors@) == definition_errors(definition@, span as int),
{
    let mut errors = whole_set_errors(definition, span);
    let ghost d = definition@;
    let groups = &definition.groups;
    let n = groups.len();
    let mut names: Vec<Vec<char>> = Vec::new();
    let mut all: Vec<bool> = Vec::new();
    let mut i: usize = 0;
    while i < n
        invariant
            n == groups@.len(),
            i <= n,
            names@.len() == i,
            all@.len() == i,
            forall|k: int| 0 <= k < i ==> #[trigger] names@[k]@ == trim(groups@[k].name@),
            forall|k: int| 0 <= k < i ==> #[trigger] all@[k],
        decreases n - i,
    {
        names.push(trimmed_string(&groups[i].name));
        all.push(true);
        i = i + 1;
    }
    let ghost head = crate::text::views(errors@);
    assert(d.groups == group_definition_views(groups@));
    let mut i: usize = 0;
    while i < n
        invariant
            n == groups@.len(),
            i <= n,
            names@.len() == n,
            all@.len() == n,
            forall|k: int| 0 <= k < n ==> #[trigger] names@[k]@ == trim(groups@[k].name@),
            forall|k: int| 0 <= k < n ==> #[trigger] all@[k],
            d == definition@,
            d.groups == group_definition_views(groups@),
            crate::text::views(errors@) == head + groups_errors(d.groups, i as int),
        decreases n - i,
    {
        push_group_errors(&mut errors, groups, &names, &all, i);
        assert(crate::text::views(errors@) =~= head + groups_errors(d.groups, i + 1));
        i = i + 1;
    }
    errors
}

// ---------------------------------------------------------------------------
// Compilation
// ---------------------------------------------------------------------------

/// Number of numeric slots among canonical tokens.
pub open spec fn slot_count(shape: Seq<(AffixTokenKind, Seq<char>)>) -> nat
    decreases shape.len(),
{
    if shape.len() == 0 {
        0
    } else {
        slot_count(shape.drop_last()) + if shape.last().0 is Word {
            0nat
        } else {
            1nat
        }
    }
}

/// Number of words among canonical tokens.
pub open spec fn word_count(shape: Seq<(AffixTokenKind, Seq<char>)>) -> nat
    decreases shape.len(),
{
    if shape.len() == 0 {
        0
    } else {
        word_count(shape.drop_last()) + if shape.last().0 is Word {
            1nat
        } else {
            0nat
        }
    }
}

/// One constraint per slot: the condition's own, then `ignored` for the rest.
pub open spec fn padded(cs: Seq<NumericConstraint>, n: nat) -> Seq<NumericConstraint> {
    Seq::new(
        n,
        |k: int|
            if k < cs.len() {
                cs[k]
            } else {
                NumericConstraint::ignored_spec()
            },
    )
}

/// The first slot whose constraint cannot be checked.
pub open spec fn first_invalid_from(cs: Seq<NumericConstraint>, k: int) -> Option<int>
    decreases cs.len() - k,
{
    if k < 0 || k >= cs.len() {
        None
    } else if !constraint_valid(cs[k]) {
        Some(k)
    } else {
        first_invalid_from(cs, k + 1)
    }
}

pub open spec fn constrained_count(cs: Seq<NumericConstraint>) -> nat
    decreases cs.len(),
{
    if cs.len() == 0 {
        0
    } else {
        constrained_count(cs.drop_last()) + if cs.last().mode == NumericConstraintMode::Ignore {
            0nat
        } else {
            1nat
        }
    }
}

pub open spec fn specificity_total(cs: Seq<NumericConstraint>) -> nat
    decreases cs.len(),
{
    if cs.len() == 0 {
        0
    } else {
        specificity_total(cs.drop_last()) + specificity(cs.last())
    }
}

pub open spec fn mode_name(m: NumericConstraintMode) -> Seq<char> {
    match m {
        NumericConstraintMode::Ignore => "Ignore"@,
        NumericConstraintMode::RangeInclusive => "RangeInclusive"@,
        NumericConstraintMode::AtLeast => "AtLeast"@,
        NumericConstraintMode::AtMost => "AtMost"@,
        NumericConstraintMode::Exactly => "Exactly"@,
    }
}

pub open spec fn condition_prefix(i: int, j: int) -> Seq<char> {
    "acceptable result "@ + ordinal(i) + ", condition "@ + ordinal(j)
}

pub open spec fn template_error(span: int, shape: Seq<(AffixTokenKind, Seq<char>)>) -> Option<AffixTemplateError> {
    if !(1 <= span <= 8) {
        Some(AffixTemplateError::UnsupportedLineSpan)
    } else if shape.len() == 0 {
        Some(AffixTemplateError::EmptyTemplate)
    } else {
        None
    }
}

/// Why enabled condition `j` of acceptable result `i` cannot be compiled: its
/// template has no matcher, it constrains more slots than the template has,
/// or one of its slot constraints cannot be checked.
pub open spec fn condition_problem(i: int, j: int, c: ConditionView, span: int) -> Option<Seq<char>> {
    let shape = shape_of(c.template);
    let slots = slot_count(shape);
    if template_error(span, shape) is Some {
        Some(condition_prefix(i, j) + ": "@ + template_error(span, shape).unwrap().message_spec())
    } else if c.constraints.len() > slots {
        Some(
            condition_prefix(i, j) + " defines "@ + decimal(c.constraints.len()) + " numeric constraints for a "@
                + decimal(slots) + "-slot template"@,
        )
    } else {
        match first_invalid_from(padded(c.constraints, slots), 0) {
            Some(k) => Some(
                condition_prefix(i, j) + ", numeric slot "@ + ordinal(k) + " has an invalid "@
                    + mode_name(padded(c.constraints, slots)[k].mode) + " constraint"@,
            ),
            None => None,
        }
    }
}

/// The first problem among the enabled conditions `j..` of acceptable result `i`.
pub open spec fn group_problem_from(i: int, conds: Seq<ConditionView>, j: int, span: int) -> Option<Seq<char>>
    decreases conds.len() - j,
{
    if j < 0 || j >= conds.len() {
        None
    } else if conds[j].enabled && condition_problem(i, j, conds[j], span) is Some {
        condition_problem(i, j, conds[j], span)
    } else {
        group_problem_from(i, conds, j + 1, span)
    }
}

/// The first problem among acceptable results `i..`.
pub open spec fn problem_from(groups: Seq<GroupDefinitionView>, i: int, span: int) -> Option<Seq<char>>
    decreases groups.len() - i,
{
    if i < 0 || i >= groups.len() {
        None
    } else if group_problem_from(i, groups[i].conditions, 0, span) is Some {
        group_problem_from(i, groups[i].conditions, 0, span)
    } else {
        problem_from(groups, i + 1, span)
    }
}

/// The indices of the enabled conditions, in order.
pub open spec fn enabled_indices(conds: Seq<ConditionView>) -> Seq<int>
    decreases conds.len(),
{
    if conds.len() == 0 {
        Seq::empty()
    } else if conds.last().enabled {
        enabled_indices(conds.drop_last()).push(conds.len() - 1)
    } else {
        enabled_indices(conds.drop_last())
    }
}

/// Conditions an acceptable result needs, by mode.
pub open spec fn required_for(mode: ResultGroupMode, chosen: usize, enabled: nat) -> int {
    match mode {
        ResultGroupMode::Any => 1,
        ResultGroupMode::All => enabled as int,
        ResultGroupMode::AtLeast => chosen as int,
    }
}

#[derive(Debug)]
struct CompiledCondition {
    name: String,
    template: String,
    matcher: FullLineAffixMatcher,
    constraints: Vec<NumericConstraint>,
    constrained_slot_count: usize,
    constraint_specificity: u128,
    lexical_token_count: usize,
    original_index: usize,
}

#[derive(Debug)]
struct CompiledGroup {
    name: String,
    mode: ResultGroupMode,
    required_count: usize,
    conditions: Vec<CompiledCondition>,
}

/// A compiled condition is what condition `c` (at index `j`) asks for.
pub closed spec fn compiled_condition_of(cc: CompiledCondition, c: ConditionView, j: int, span: int) -> bool {
    &&& cc.name@ == c.name
    &&& cc.template@ == c.template
    &&& cc.matcher.shape() == shape_of(c.template)
    &&& cc.matcher.span() == span
    &&& cc.matcher.shape().len() > 0
    &&& cc.constraints@ == padded(c.constraints, slot_count(shape_of(c.template)))
    &&& forall|k: int| 0 <= k < cc.constraints@.len() ==> constraint_valid(#[trigger] cc.constraints@[k])
    &&& cc.constrained_slot_count == constrained_count(cc.constraints@)
    &&& cc.constraint_specificity == specificity_total(cc.constraints@)
    &&& cc.lexical_token_count == word_count(cc.matcher.shape())
    &&& cc.original_index == j
}

fn count_slots(tokens: &Vec<crate::matching::AffixToken>) -> (r: (usize, usize))
    ensures
        r.0 == slot_count(affix_views(tokens@)),
        r.1 == word_count(affix_views(tokens@)),
{
    let n = tokens.len();
    let mut slots: usize = 0;
    let mut words: usize = 0;
    let mut i: usize = 0;
    while i < n
        invariant
            n == tokens@.len(),
            i <= n,
            slots + words == i,
            slots == slot_count(affix_views(tokens@).take(i as int)),
            words == word_count(affix_views(tokens@).take(i as int)),
        decreases n - i,
    {
        assert(affix_views(tokens@).take(i + 1).drop_last() =~= affix_views(tokens@).take(i as int));
        if tokens[i].kind.is_word() {
            words = words + 1;
        } else {
            slots = slots + 1;
        }
        i = i + 1;
    }
    assert(affix_views(tokens@).take(n as int) =~= affix_views(tokens@));
    (slots, words)
}

fn mode_name_chars(m: NumericConstraintMode) -> (out: Vec<char>)
    ensures
        out@ == mode_name(m),
{
    match m {
        NumericConstraintMode::Ignore => literal("Ignore"),
        NumericConstraintMode::RangeInclusive => literal("RangeInclusive"),
        NumericConstraintMode::AtLeast => literal("AtLeast"),
        NumericConstraintMode::AtMost => literal("AtMost"),
        NumericConstraintMode::Exactly => literal("Exactly"),
    }
}

fn condition_prefix_chars(i: usize, j: usize) -> (out: Vec<char>)
    requires
        i < usize::MAX,
        j < usize::MAX,
    ensures
        out@ == condition_prefix(i as int, j as int),
{
    let mut m = literal("acceptable result ");
    push_ordinal(&mut m, i);
    push_str_chars(&mut m, ", condition ");
    push_ordinal(&mut m, j);
    m
}

fn compile_condition(c: &AffixCondition, i: usize, j: usize, span: usize) -> (r: Result<CompiledCondition, Vec<char>>)
    requires
        i < usize::MAX,
        j < usize::MAX,
    ensures
        match r {
            Ok(cc) => condition_problem(i as int, j as int, c@, span as int) is None
                && compiled_condition_of(cc, c@, j as int, span as int),
            Err(m) => condition_problem(i as int, j as int, c@, span as int) == Some(m@),
        },
{
    let matcher = match FullLineAffixMatcher::with_maximum_line_span(c.template.as_str(), span) {
        Ok(m) => m,
        Err(e) => {
            let mut m = condition_prefix_chars(i, j);
            push_str_chars(&mut m, ": ");
            let text = e.message();
            push_str_chars(&mut m, text.as_str());
            return Err(m);
        },
    };
    let (slots, words) = count_slots(&matcher.template().tokens);
    let given = c.numeric_constraints.len();
    if given > slots {
        let mut m = condition_prefix_chars(i, j);
        push_str_chars(&mut m, " defines ");
        push_decimal(&mut m, given as u64);
        push_str_chars(&mut m, " numeric constraints for a ");
        push_decimal(&mut m, slots as u64);
        push_str_chars(&mut m, "-slot template");
        return Err(m);
    }
    let ghost full = padded(c@.constraints, slots as nat);
    assert(slots == slot_count(shape_of(c@.template)));
    assert(template_error(span as int, shape_of(c@.template)) is None);
    let mut constraints: Vec<NumericConstraint> = Vec::new();
    let mut constrained: usize = 0;
    let mut total: u128 = 0;
    let mut k: usize = 0;
    while k < slots
        invariant
            given == c@.constraints.len(),
            given <= slots,
            k <= slots,
            i < usize::MAX,
            j < usize::MAX,
            full == padded(c@.constraints, slots as nat),
            slots == slot_count(shape_of(c@.template)),
            template_error(span as int, shape_of(c@.template)) is None,
            constraints@ == full.take(k as int),
            first_invalid_from(full, 0) == first_invalid_from(full, k as int),
            constrained <= k,
            total <= 4 * k,
            constrained == constrained_count(constraints@),
            total == specificity_total(constraints@),
        decreases slots - k,
    {
        let next = if k < given {
            c.numeric_constraints[k]
        } else {
            NumericConstraint::ignored()
        };
        assert(next == full[k as int]);
        assert(slots == slot_count(shape_of(c@.template)));
        if !valid_constraint(&next) {
            assert(first_invalid_from(full, k as int) == Some(k as int));
            let mut m = condition_prefix_chars(i, j);
            push_str_chars(&mut m, ", numeric slot ");
            push_ordinal(&mut m, k);
            push_str_chars(&mut m, " has an invalid ");
            let name = mode_name_chars(next.mode);
            crate::text::push_all(&mut m, name.as_slice());
            push_str_chars(&mut m, " constraint");
            return Err(m);
        }
        let ghost before = constraints@;
        constraints.push(next);
        assert(constraints@.drop_last() =~= before);
        assert(full.take(k + 1) =~= full.take(k as int).push(full[k as int]));
        if next.mode != NumericConstraintMode::Ignore {
            constrained = constrained + 1;
        }
        total = total + constraint_specificity(&next) as u128;
        k = k + 1;
    }
    assert(full.take(slots as int) =~= full);
    assert forall|m: int| 0 <= m < constraints@.len() implies constraint_valid(#[trigger] constraints@[m]) by {
        lemma_first_invalid_none(full, m);
    }
    Ok(CompiledCondition {
        name: c.name.clone(),
        template: c.template.clone(),
        matcher,
        constraints,
        constrained_slot_count: constrained,
        constraint_specificity: total,
        lexical_token_count: words,
        original_index: j,
    })
}

proof fn lemma_first_invalid_none(cs: Seq<NumericConstraint>, m: int)
    requires
        first_invalid_from(cs, 0) is None,
        0 <= m < cs.len(),
    ensures
        constraint_valid(cs[m]),
{
    lemma_first_invalid_scan(cs, 0, m);
}

proof fn lemma_first_invalid_scan(cs: Seq<NumericConstraint>, k: int, m: int)
    requires
        first_invalid_from(cs, k) is None,
        0 <= k <= m < cs.len(),
    ensures
        constraint_valid(cs[m]),
    decreases m - k,
{
    if k < m {
        lemma_first_invalid_scan(cs, k + 1, m);
    }
}

proof fn lemma_first_invalid_found(cs: Seq<NumericConstraint>, k: int)
    requires
        first_invalid_from(cs, k) is Some,
    ensures
        k <= first_invalid_from(cs, k).unwrap() < cs.len(),
        !constraint_valid(cs[first_invalid_from(cs, k).unwrap()]),
    decreases cs.len() - k,
{
    if k >= 0 && k < cs.len() && constraint_valid(cs[k]) {
        lemma_first_invalid_found(cs, k + 1);
    }
}

/// A condition compiles exactly when its template yields a matcher at the
/// line span, it constrains no more numeric slots than the template has, and
/// every slot's constraint can be checked, the slots it leaves out counting
/// as ignored.
pub proof fn condition_compiles_exactly_when_constraints_fit(i: int, j: int, c: ConditionView, span: int)
    ensures
        condition_problem(i, j, c, span) is None <==> ({
            let slots = slot_count(shape_of(c.template));
            &&& template_error(span, shape_of(c.template)) is None
            &&& c.constraints.len() <= slots
            &&& forall|k: int| 0 <= k < slots ==> constraint_valid(#[trigger] padded(c.constraints, slots)[k])
        }),
{
    let slots = slot_count(shape_of(c.template));
    let full = padded(c.constraints, slots);
    if template_error(span, shape_of(c.template)) is None && c.constraints.len() <= slots {
        if first_invalid_from(full, 0) is Some {
            lemma_first_invalid_found(full, 0);
        } else {
            assert forall|k: int| 0 <= k < slots implies constraint_valid(#[trigger] padded(c.constraints, slots)[k]) by {
                lemma_first_invalid_none(full, k);
            }
        }
    }
}

/// What a slot constraint asks of the value read: nothing when it ignores the
/// slot; otherwise a value and the bound its mode reads, compared inclusively
/// (`Exactly` compares for equality).
pub proof fn constraint_holds_by_mode(c: NumericConstraint, actual: Option<int>)
    ensures
        c.mode == NumericConstraintMode::Ignore ==> constraint_holds(c, actual),
        c.mode != NumericConstraintMode::Ignore && actual is None ==> !constraint_holds(c, actual),
        c.mode == NumericConstraintMode::RangeInclusive ==> (constraint_holds(c, actual) <==> (actual is Some
            && c.minimum is Some && c.maximum is Some && c.minimum.unwrap()@ <= actual.unwrap() <= c.maximum.unwrap()@)),
        c.mode == NumericConstraintMode::AtLeast ==> (constraint_holds(c, actual) <==> (actual is Some
            && c.minimum is Some && actual.unwrap() >= c.minimum.unwrap()@)),
        c.mode == NumericConstraintMode::AtMost ==> (constraint_holds(c, actual) <==> (actual is Some
            && c.maximum is Some && actual.unwrap() <= c.maximum.unwrap()@)),
        c.mode == NumericConstraintMode::Exactly ==> (constraint_holds(c, actual) <==> (actual is Some
            && c.expected is Some && actual.unwrap() == c.expected.unwrap()@)),
{
}

/// A compiled acceptable result is what `g` asks for: its enabled conditions,
/// compiled, in order, and the count its mode requires.
pub closed spec fn compiled_group_of(cg: CompiledGroup, g: GroupDefinitionView, span: int) -> bool {
    let idx = enabled_indices(g.conditions);
    &&& cg.name@ == g.name
    &&& cg.mode == g.mode
    &&& cg.required_count == required_for(g.mode, g.required_count, enabled_count(g.conditions))
    &&& cg.conditions@.len() == idx.len()
    &&& forall|k: int|
        0 <= k < idx.len() ==> compiled_condition_of(
            #[trigger] cg.conditions@[k],
            g.conditions[idx[k]],
            idx[k],
            span,
        )
}

proof fn lemma_enabled_indices_step(conds: Seq<ConditionView>, j: int)
    requires
        0 <= j < conds.len(),
    ensures
        enabled_indices(conds.take(j + 1)) == (if conds[j].enabled {
            enabled_indices(conds.take(j)).push(j)
        } else {
            enabled_indices(conds.take(j))
        }),
        enabled_count(conds.take(j + 1)) == enabled_count(conds.take(j)) + (if conds[j].enabled {
            1nat
        } else {
            0nat
        }),
{
    assert(conds.take(j + 1).drop_last() =~= conds.take(j));
}

proof fn lemma_enabled_indices_bounds(conds: Seq<ConditionView>)
    ensures
        enabled_indices(conds).len() == enabled_count(conds),
        forall|k: int|
            0 <= k < enabled_indices(conds).len() ==> 0 <= #[trigger] enabled_indices(conds)[k]
                < conds.len() && conds[enabled_indices(conds)[k]].enabled,
        forall|a: int, b: int|
            0 <= a < b < enabled_indices(conds).len() ==> #[trigger] enabled_indices(conds)[a]
                < #[trigger] enabled_indices(conds)[b],
    decreases conds.len(),
{
    if conds.len() > 0 {
        lemma_enabled_indices_bounds(conds.drop_last());
        let p = enabled_indices(conds.drop_last());
        assert forall|k: int| 0 <= k < p.len() implies conds[p[k]] == conds.drop_last()[p[k]] by {}
    }
}

fn compile_group(g: &AcceptableResultGroup, i: usize, span: usize) -> (r: Result<CompiledGroup, Vec<char>>)
    requires
        i < usize::MAX,
    ensures
        match r {
            Ok(cg) => group_problem_from(i as int, g@.conditions, 0, span as int) is None
                && compiled_group_of(cg, g@, span as int),
            Err(m) => group_problem_from(i as int, g@.conditions, 0, span as int) == Some(m@),
        },
{
    let conds = &g.conditions;
    let n = conds.len();
    let ghost cv = g@.conditions;
    assert(cv == condition_views(conds@));
    let mut compiled: Vec<CompiledCondition> = Vec::new();
    let mut enabled: usize = 0;
    let mut j: usize = 0;
    assert(cv.take(0) =~= Seq::<ConditionView>::empty());
    while j < n
        invariant
            n == conds@.len(),
            cv == condition_views(conds@),
            cv == g@.conditions,
            j <= n,
            i < usize::MAX,
            enabled <= j,
            enabled == enabled_count(cv.take(j as int)),
            group_problem_from(i as int, cv, 0, span as int) == group_problem_from(
                i as int,
                cv,
                j as int,
                span as int,
            ),
            compiled@.len() == enabled_indices(cv.take(j as int)).len(),
            forall|k: int|
                0 <= k < compiled@.len() ==> compiled_condition_of(
                    #[trigger] compiled@[k],
                    cv[enabled_indices(cv.take(j as int))[k]],
                    enabled_indices(cv.take(j as int))[k],
                    span as int,
                ),
        decreases n - j,
    {
        proof {
            lemma_enabled_indices_step(cv, j as int);
        }
        assert(cv[j as int] == conds@[j as int]@);
        if conds[j].enabled {
            match compile_condition(&conds[j], i, j, span) {
                Ok(cc) => {
                    compiled.push(cc);
                    enabled = enabled + 1;
                },
                Err(m) => {
                    assert(group_problem_from(i as int, cv, j as int, span as int) == Some(m@));
                    return Err(m);
                },
            }
        }
        j = j + 1;
    }
    assert(cv.take(n as int) =~= cv);
    let required = match g.mode {
        ResultGroupMode::Any => 1,
        ResultGroupMode::All => enabled,
        ResultGroupMode::AtLeast => g.required_count,
    };
    Ok(CompiledGroup { name: g.name.clone(), mode: g.mode, required_count: required, conditions: compiled })
}

/// A rule set ready to evaluate: validated, every enabled condition compiled.
#[derive(Debug)]
pub struct CompiledRuleSet {
    definition: RuleSetDefinition,
    groups: Vec<CompiledGroup>,
    targets: Vec<FullLineAffixMatcher>,
    maximum_physical_line_span: usize,
}

/// Why a rule set was refused, one message per problem.
#[derive(Clone, Debug, PartialEq, Eq)]
pub struct RuleValidationError {
    pub errors: Vec<String>,
}

/// Messages joined by newlines.
pub open spec fn joined_messages(m: Seq<Seq<char>>) -> Seq<char>
    decreases m.len(),
{
    if m.len() == 0 {
        Seq::empty()
    } else if m.len() == 1 {
        m[0]
    } else {
        joined_messages(m.drop_last()) + seq!['\n'] + m.last()
    }
}

impl RuleValidationError {
    /// The messages, one per line.
    pub fn to_string(&self) -> (s: String)
        ensures
            s@ == joined_messages(crate::text::string_views(self.errors@)),
    {
        let n = self.errors.len();
        let mut out: Vec<char> = Vec::new();
        let mut i: usize = 0;
        while i < n
            invariant
                n == self.errors@.len(),
                i <= n,
                out@ == joined_messages(crate::text::string_views(self.errors@).take(i as int)),
            decreases n - i,
        {
            let ghost t = crate::text::string_views(self.errors@).take(i + 1);
            assert(t.drop_last() =~= crate::text::string_views(self.errors@).take(i as int));
            if i > 0 {
                out.push('\n');
            }
            push_str_chars(&mut out, self.errors[i].as_str());
            assert(out@ =~= joined_messages(t));
            i = i + 1;
        }
        assert(crate::text::string_views(self.errors@).take(n as int) =~= crate::text::string_views(
            self.errors@,
        ));
        crate::text::string_of(out.as_slice())
    }
}

/// The shapes of the enabled templates of one acceptable result, in order.
pub open spec fn group_shapes(g: GroupDefinitionView) -> Seq<Seq<(AffixTokenKind, Seq<char>)>> {
    enabled_indices(g.conditions).map_values(|j: int| shape_of(g.conditions[j].template))
}

/// The shapes of every enabled template, acceptable result by acceptable result.
pub open spec fn enabled_shapes(groups: Seq<GroupDefinitionView>) -> Seq<Seq<(AffixTokenKind, Seq<char>)>>
    decreases groups.len(),
{
    if groups.len() == 0 {
        Seq::empty()
    } else {
        enabled_shapes(groups.drop_last()) + group_shapes(groups.last())
    }
}

/// The first shape for each distinct rendering, in order of first appearance.
pub open spec fn first_by_display(shapes: Seq<Seq<(AffixTokenKind, Seq<char>)>>) -> Seq<Seq<(AffixTokenKind, Seq<char>)>>
    decreases shapes.len(),
{
    if shapes.len() == 0 {
        Seq::empty()
    } else {
        let p = first_by_display(shapes.drop_last());
        if exists|k: int| 0 <= k < p.len() && display(#[trigger] p[k]) == display(shapes.last()) {
            p
        } else {
            p.push(shapes.last())
        }
    }
}

pub open spec fn matcher_shapes(v: Seq<FullLineAffixMatcher>) -> Seq<Seq<(AffixTokenKind, Seq<char>)>> {
    v.map_values(|m: FullLineAffixMatcher| m.shape())
}

/// What compiling `d` with line span `span` gives: the compiled rules when
/// every validation check passes and every enabled condition compiles;
/// otherwise refused with every validation message, or, when validation
/// passes, with the first condition that does not compile.
pub open spec fn compiled(d: DefinitionView, span: int, r: Result<CompiledRuleSet, RuleValidationError>) -> bool {
    match r {
        Ok(rules) => definition_errors(d, span).len() == 0 && problem_from(d.groups, 0, span) is None
            && rules.source() == d && rules.line_span() == span,
        Err(e) => crate::text::string_views(e.errors@) == (if definition_errors(d, span).len() > 0 {
            definition_errors(d, span)
        } else {
            seq![problem_from(d.groups, 0, span).unwrap()]
        }) && (definition_errors(d, span).len() > 0 || problem_from(d.groups, 0, span) is Some),
    }
}

impl CompiledRuleSet {
    #[verifier::type_invariant]
    closed spec fn inv(self) -> bool {
        &&& 1 <= self.maximum_physical_line_span <= 8
        &&& self.groups@.len() == self.definition@.groups.len()
        &&& forall|g: int|
            0 <= g < self.groups@.len() ==> compiled_group_of(
                #[trigger] self.groups@[g],
                self.definition@.groups[g],
                self.maximum_physical_line_span as int,
            )
        &&& matcher_shapes(self.targets@) == first_by_display(enabled_shapes(self.definition@.groups))
    }

    /// The definition this rule set was compiled from, unchanged.
    pub fn definition(&self) -> (d: &RuleSetDefinition)
        ensures
            d@ == self.source(),
    {
        &self.definition
    }

    /// One matcher per distinct enabled template (by canonical rendering), in
    /// order of first appearance: what a target-aware reader should look for.
    pub fn targets(&self) -> (t: &[FullLineAffixMatcher])
        ensures
            matcher_shapes(t@) == first_by_display(enabled_shapes(self.source().groups)),
    {
        proof {
            use_type_invariant(self);
        }
        self.targets.as_slice()
    }

    /// The definition this rule set was compiled from.
    pub closed spec fn source(self) -> DefinitionView {
        self.definition@
    }

    /// The line span a modifier may occupy.
    pub closed spec fn line_span(self) -> int {
        self.maximum_physical_line_span as int
    }

    /// Compiles a definition with the default line span.
    pub fn compile(definition: RuleSetDefinition) -> (r: Result<CompiledRuleSet, RuleValidationError>)
        ensures
            compiled(definition@, crate::matching::DEFAULT_MAXIMUM_PHYSICAL_LINE_SPAN as int, r),
    {
        CompiledRuleSet::compile_with_maximum_line_span(
            definition,
            crate::matching::DEFAULT_MAXIMUM_PHYSICAL_LINE_SPAN,
        )
    }

    /// Compiles a definition whose modifiers may span up to
    /// `maximum_physical_line_span` lines. Refused, with every validation
    /// message, when the definition is invalid; refused with the first
    /// problem found when an enabled condition cannot be compiled.
    pub fn compile_with_maximum_line_span(definition: RuleSetDefinition, maximum_physical_line_span: usize) -> (r: Result<CompiledRuleSet, RuleValidationError>)
        ensures
            compiled(definition@, maximum_physical_line_span as int, r),
    {
        let span = maximum_physical_line_span;
        let errors = validate_definition(&definition, span);
        if errors.len() > 0 {
            let strings = crate::text::lines_to_strings(&errors);
            return Err(RuleValidationError { errors: strings });
        }
        assert(crate::text::views(errors@).len() == 0);
        assert(definition_errors(definition@, span as int).len() == 0);
        assert(set_errors(definition@, span as int).len() == 0);
        assert(1 <= span <= 8) by {
            if !(1 <= span <= 8) {
                assert(set_errors(definition@, span as int).len() > 0);
            }
        }
        let ghost gv = definition@.groups;
        let groups = match compile_groups(&definition, span) {
            Ok(groups) => groups,
            Err(m) => {
                let mut one: Vec<String> = Vec::new();
                one.push(crate::text::string_of(m.as_slice()));
                assert(crate::text::string_views(one@) =~= seq![m@]);
                return Err(RuleValidationError { errors: one });
            },
        };
        let targets = collect_targets(&groups, Ghost(gv), span);
        assert(group_definition_views(definition.groups@) == definition@.groups);
        Ok(CompiledRuleSet { definition, groups, targets, maximum_physical_line_span: span })
    }
}

fn compile_groups(definition: &RuleSetDefinition, span: usize) -> (r: Result<Vec<CompiledGroup>, Vec<char>>)
    ensures
        match r {
            Ok(groups) => problem_from(definition@.groups, 0, span as int) is None
                && groups@.len() == definition@.groups.len()
                && forall|g: int| 0 <= g < groups@.len() ==> compiled_group_of(#[trigger] groups@[g], definition@.groups[g], span as int),
            Err(m) => problem_from(definition@.groups, 0, span as int) == Some(m@),
        },
{
    let ghost gv = definition@.groups;
    let n = definition.groups.len();
    let mut groups: Vec<CompiledGroup> = Vec::new();
    let mut i: usize = 0;
    while i < n
        invariant
            n == definition.groups@.len(),
            gv == definition@.groups,
            gv == group_definition_views(definition.groups@),
            i <= n,
            problem_from(gv, 0, span as int) == problem_from(gv, i as int, span as int),
            groups@.len() == i,
            forall|g: int|
                0 <= g < i ==> compiled_group_of(#[trigger] groups@[g], gv[g], span as int),
        decreases n - i,
    {
        assert(gv[i as int] == definition.groups@[i as int]@);
        match compile_group(&definition.groups[i], i, span) {
            Ok(cg) => {
                groups.push(cg);
            },
            Err(m) => {
                assert(problem_from(gv, i as int, span as int) == Some(m@));
                return Err(m);
            },
        }
        i = i + 1;
    }
    Ok(groups)
}

fn collect_targets(groups: &Vec<CompiledGroup>, gv: Ghost<Seq<GroupDefinitionView>>, span: usize) -> (targets: Vec<FullLineAffixMatcher>)
    requires
        groups@.len() == gv@.len(),
        forall|g: int| 0 <= g < groups@.len() ==> compiled_group_of(#[trigger] groups@[g], gv@[g], span as int),
    ensures
        matcher_shapes(targets@) == first_by_display(enabled_shapes(gv@)),
{
    let n = groups.len();
    let mut targets: Vec<FullLineAffixMatcher> = Vec::new();
    let ghost mut seen: Seq<Seq<(AffixTokenKind, Seq<char>)>> = Seq::empty();
    let mut g: usize = 0;
    assert(gv@.take(0) =~= Seq::<GroupDefinitionView>::empty());
    while g < n
        invariant
            n == groups@.len(),
            n == gv@.len(),
            g <= n,
            forall|x: int| 0 <= x < groups@.len() ==> compiled_group_of(#[trigger] groups@[x], gv@[x], span as int),
            seen == enabled_shapes(gv@.take(g as int)),
            matcher_shapes(targets@) == first_by_display(seen),
        decreases n - g,
    {
        let cg = &groups[g];
        assert(compiled_group_of(groups@[g as int], gv@[g as int], span as int));
        let ghost shapes = group_shapes(gv@[g as int]);
        let ghost base = seen;
        let m = cg.conditions.len();
        let mut k: usize = 0;
        while k < m
            invariant
                m == cg.conditions@.len(),
                m == shapes.len(),
                k <= m,
                compiled_group_of(*cg, gv@[g as int], span as int),
                shapes == group_shapes(gv@[g as int]),
                seen == base + shapes.take(k as int),
                matcher_shapes(targets@) == first_by_display(seen),
            decreases m - k,
        {
            let matcher = &cg.conditions[k].matcher;
            let ghost idx = enabled_indices(gv@[g as int].conditions);
            assert(matcher.shape() == shapes[k as int]);
            let text = &matcher.template().text;
            let known = has_display(&targets, text);
            let ghost p = first_by_display(seen);
            proof {
                assert(seen.push(shapes[k as int]).drop_last() =~= seen);
            }
            if !known {
                let copy = matcher.duplicate();
                let ghost before = targets@;
                targets.push(copy);
                assert(matcher_shapes(targets@) =~= matcher_shapes(before).push(copy.shape()));
            }
            proof {
                assert(shapes.take(k + 1) =~= shapes.take(k as int).push(shapes[k as int]));
                assert(base + shapes.take(k + 1) =~= seen.push(shapes[k as int]));
                seen = seen.push(shapes[k as int]);
            }
            k = k + 1;
        }
        proof {
            assert(shapes.take(m as int) =~= shapes);
            assert(gv@.take(g + 1).drop_last() =~= gv@.take(g as int));
        }
        g = g + 1;
    }
    assert(gv@.take(n as int) =~= gv@);
    targets
}

fn has_display(targets: &Vec<FullLineAffixMatcher>, text: &String) -> (b: bool)
    ensures
        b == exists|t: int|
            0 <= t < targets@.len() && display(#[trigger] matcher_shapes(targets@)[t]) == text@,
{
    let n = targets.len();
    let mut t: usize = 0;
    while t < n
        invariant
            n == targets@.len(),
            t <= n,
            forall|x: int| 0 <= x < t ==> display(#[trigger] matcher_shapes(targets@)[x]) != text@,
        decreases n - t,
    {
        let other = &targets[t].template().text;
        if *other == *text {
            assert(display(matcher_shapes(targets@)[t as int]) == text@);
            return true;
        }
        t = t + 1;
    }
    false
}

// ---------------------------------------------------------------------------
// Evaluation results
// ---------------------------------------------------------------------------

/// A run of physical lines (or an assisted reading) read as one modifier.
#[derive(Clone, Debug, PartialEq, Eq)]
pub struct ModifierObservation {
    pub start_line_index: usize,
    pub physical_line_count: usize,
    pub original_text: String,
    pub canonical_text: String,
    pub numeric_values: Vec<Option<Decimal>>,
    pub physical_band_id: Option<String>,
    pub physical_band_ids: Vec<String>,
}

/// How one numeric slot fared against its constraint.
#[derive(Clone, Copy, Debug, PartialEq, Eq)]
pub struct NumericSlotEvidence {
    pub slot_index: usize,
    pub actual_value: Option<Decimal>,
    pub constraint: NumericConstraint,
    pub is_satisfied: bool,
}

/// How one enabled condition fared.
#[derive(Clone, Debug, PartialEq, Eq)]
pub struct ConditionEvaluation {
    /// Index of the condition in its acceptable result's definition.
    pub condition_index: usize,
    pub name: String,
    pub template: String,
    pub is_matched: bool,
    /// The modifier that satisfied the condition, or the closest textual
    /// match when none did.
    pub observation: Option<ModifierObservation>,
    pub numeric_slots: Vec<NumericSlotEvidence>,
}

/// How one acceptable result fared.
#[derive(Clone, Debug, PartialEq, Eq)]
pub struct ResultGroupEvaluation {
    pub group_index: usize,
    pub name: String,
    pub mode: ResultGroupMode,
    pub required_count: usize,
    pub matched_count: usize,
    pub is_match: bool,
    pub conditions: Vec<ConditionEvaluation>,
}

/// How a rule set fared against one item.
#[derive(Clone, Debug, PartialEq, Eq)]
pub struct RuleEvaluationResult {
    pub is_match: bool,
    /// The first acceptable result that was met.
    pub matched_group_index: Option<usize>,
    pub groups: Vec<ResultGroupEvaluation>,
}

impl RuleEvaluationResult {
    /// The acceptable result that was reported as the match.
    pub fn matched_group(&self) -> (g: Option<&ResultGroupEvaluation>)
        ensures
            match self.matched_group_index {
                Some(i) => if i < self.groups@.len() {
                    g == Some(&self.groups@[i as int])
                } else {
                    g is None
                },
                None => g is None,
            },
    {
        match self.matched_group_index {
            Some(i) => {
                if i < self.groups.len() {
                    Some(&self.groups[i])
                } else {
                    None
                }
            },
            None => None,
        }
    }

    /// The name of the acceptable result that was reported as the match.
    pub fn matched_group_id(&self) -> (name: Option<&str>)
        ensures
            match self.matched_group_index {
                Some(i) => if i < self.groups@.len() {
                    name is Some && name.unwrap()@ == self.groups@[i as int].name@
                } else {
                    name is None
                },
                None => name is None,
            },
    {
        match self.matched_group() {
            Some(g) => Some(g.name.as_str()),
            None => None,
        }
    }
}

// ---------------------------------------------------------------------------
// Observations
// ---------------------------------------------------------------------------

/// A candidate modifier: lines `start..start+count` (or an assisted reading,
/// placed after the lines), its canonical tokens and displayed values.
struct Prepared {
    start: usize,
    count: usize,
    original: Vec<char>,
    tokens: Vec<crate::matching::AffixToken>,
    values: Vec<Option<Decimal>>,
    target: Option<Vec<char>>,
    bands: Vec<Vec<char>>,
}

/// What a prepared observation holds of the lines it came from.
closed spec fn prepared_ok(p: Prepared, lines: Seq<Seq<char>>, span: int) -> bool {
    &&& p.count >= 1
    &&& match p.target {
        None => crate::matching::span_readable(lines, p.start as int, p.count as int, span)
            && p.original@ == crate::matching::plain_joined(lines.subrange(p.start as int, p.start + p.count))
            && affix_views(p.tokens@) == crate::matching::token_views(
            crate::matching::lex(crate::matching::span_source(lines, p.start as int, p.count as int)),
        ) && crate::matching::values_view(p.values@) == crate::matching::slot_values(
            crate::matching::lex(crate::matching::span_source(lines, p.start as int, p.count as int)),
        ),
        Some(_) => p.start >= lines.len() && p.count == 1,
    }
}

/// The band that the identities give line `k`: that of the first identity
/// naming it.
pub open spec fn band_of(ids: Seq<PhysicalLineIdentity>, k: int) -> Option<Seq<char>>
    decreases ids.len(),
{
    if ids.len() == 0 {
        None
    } else if ids[0].line_index == k {
        Some(ids[0].physical_band_id@)
    } else {
        band_of(ids.drop_first(), k)
    }
}

/// A band id, trimmed, is among `bands` (a blank id names no band).
pub open spec fn band_listed(bands: Seq<Seq<char>>, b: Seq<char>) -> bool {
    trim(b).len() > 0 ==> bands.contains(trim(b))
}

/// Every line `from..to` that the identities place in a band has that band
/// among `bands`.
pub open spec fn line_bands_listed(bands: Seq<Seq<char>>, ids: Seq<PhysicalLineIdentity>, from: int, to: int) -> bool {
    forall|k: int|
        from <= k < to ==> match #[trigger] band_of(ids, k) {
            Some(b) => band_listed(bands, b),
            None => true,
        }
}

/// `b` is the band, trimmed and not blank, of one of the lines `from..to`.
pub open spec fn line_band_in(ids: Seq<PhysicalLineIdentity>, from: int, to: int, b: Seq<char>) -> bool {
    exists|k: int|
        from <= k < to && #[trigger] band_of(ids, k) is Some && trim(band_of(ids, k).unwrap()) == b && b.len() > 0
}

/// `bands` and `original` come from assisted reading `a`: its band is listed
/// and the text is its text, trimmed.
pub open spec fn from_assisted(bands: Seq<Seq<char>>, original: Seq<char>, a: AssistedModifierObservation) -> bool {
    &&& trim(a.physical_band_id@).len() > 0
    &&& bands.contains(trim(a.physical_band_id@))
    &&& original == trim(a.original_text@)
}

/// The bands a prepared observation carries: those of its lines, or that of
/// the assisted reading it came from.
closed spec fn bands_ok(
    p: Prepared,
    ids: Seq<PhysicalLineIdentity>,
    assisted: Seq<AssistedModifierObservation>,
) -> bool {
    &&& strictly_sorted(crate::text::views(p.bands@))
    &&& match p.target {
        None => line_bands_listed(crate::text::views(p.bands@), ids, p.start as int, p.start + p.count)
            && forall|i: int|
            0 <= i < p.bands@.len() ==> line_band_in(ids, p.start as int, p.start + p.count, #[trigger] p.bands@[i]@),
        Some(_) => exists|a: int|
            0 <= a < assisted.len() && from_assisted(crate::text::views(p.bands@), p.original@, #[trigger] assisted[a]),
    }
}

/// `a` sorts before `b`: character by character, a proper prefix first.
pub open spec fn text_before(a: Seq<char>, b: Seq<char>) -> bool
    decreases a.len(),
{
    if a.len() == 0 {
        b.len() > 0
    } else if b.len() == 0 {
        false
    } else if a[0] != b[0] {
        a[0] < b[0]
    } else {
        text_before(a.drop_first(), b.drop_first())
    }
}

/// Each entry sorts before the next.
pub open spec fn strictly_sorted(s: Seq<Seq<char>>) -> bool {
    forall|i: int, j: int| 0 <= i < j < s.len() ==> text_before(#[trigger] s[i], #[trigger] s[j])
}

pub(crate) proof fn lemma_before_irreflexive(a: Seq<char>)
    ensures
        !text_before(a, a),
    decreases a.len(),
{
    if a.len() > 0 {
        lemma_before_irreflexive(a.drop_first());
    }
}

pub(crate) proof fn lemma_before_transitive(a: Seq<char>, b: Seq<char>, c: Seq<char>)
    requires
        text_before(a, b),
        text_before(b, c),
    ensures
        text_before(a, c),
    decreases a.len(),
{
    if a.len() > 0 && b.len() > 0 && c.len() > 0 && a[0] == b[0] && b[0] == c[0] {
        lemma_before_transitive(a.drop_first(), b.drop_first(), c.drop_first());
    }
}

pub(crate) proof fn lemma_before_total(a: Seq<char>, b: Seq<char>)
    requires
        a != b,
    ensures
        text_before(a, b) || text_before(b, a),
    decreases a.len(),
{
    if a.len() > 0 && b.len() > 0 && a[0] == b[0] {
        if a.drop_first() =~= b.drop_first() {
            assert(a =~= seq![a[0]] + a.drop_first());
            assert(b =~= seq![b[0]] + b.drop_first());
            assert(a =~= b);
        } else {
            lemma_before_total(a.drop_first(), b.drop_first());
        }
    } else if a.len() == 0 && b.len() == 0 {
        assert(a =~= b);
    }
}

/// `text_before` on characters.
pub(crate) fn text_less(a: &[char], b: &[char]) -> (r: bool)
    ensures
        r == text_before(a@, b@),
{
    let mut i: usize = 0;
    assert(a@.skip(0) =~= a@);
    assert(b@.skip(0) =~= b@);
    while i < a.len() && i < b.len() && a[i] == b[i]
        invariant
            i <= a@.len(),
            i <= b@.len(),
            text_before(a@, b@) == text_before(a@.skip(i as int), b@.skip(i as int)),
        decreases a@.len() - i,
    {
        assert(a@.skip(i as int).drop_first() =~= a@.skip(i + 1));
        assert(b@.skip(i as int).drop_first() =~= b@.skip(i + 1));
        i = i + 1;
    }
    if i == a.len() {
        assert(a@.skip(i as int).len() == 0);
        i < b.len()
    } else if i == b.len() {
        assert(b@.skip(i as int).len() == 0);
        false
    } else {
        assert(a@.skip(i as int)[0] == a@[i as int]);
        assert(b@.skip(i as int)[0] == b@[i as int]);
        a[i] < b[i]
    }
}

/// Adds a band id, trimmed, unless it is blank or already there, keeping the
/// ids in sorted order.
fn add_band(bands: &mut Vec<Vec<char>>, id: &String)
    requires
        strictly_sorted(crate::text::views(old(bands)@)),
    ensures
        strictly_sorted(crate::text::views(final(bands)@)),
        forall|x: Seq<char>| #[trigger] crate::text::views(old(bands)@).contains(x) ==> crate::text::views(final(bands)@).contains(x),
        forall|i: int|
            0 <= i < final(bands)@.len() ==> crate::text::views(old(bands)@).contains(#[trigger] final(bands)@[i]@) || (
            final(bands)@[i]@ == trim(id@) && trim(id@).len() > 0),
        band_listed(crate::text::views(final(bands)@), id@),
{
    let t = crate::text::chars_of(id.as_str());
    let t = trim_chars(t.as_slice());
    assert forall|i: int| 0 <= i < bands@.len() implies crate::text::views(bands@).contains(#[trigger] bands@[i]@) by {
        assert(crate::text::views(bands@)[i] == bands@[i]@);
    }
    if t.len() == 0 {
        return;
    }
    let n = bands.len();
    let mut p: usize = 0;
    while p < n && text_less(bands[p].as_slice(), t.as_slice())
        invariant
            n == bands@.len(),
            p <= n,
            forall|q: int| 0 <= q < p ==> text_before(#[trigger] bands@[q]@, t@),
        decreases n - p,
    {
        p = p + 1;
    }
    if p < n && crate::text::same_chars(bands[p].as_slice(), t.as_slice()) {
        assert(crate::text::views(bands@)[p as int] == t@);
        assert(crate::text::views(bands@).contains(t@));
        return;
    }
    let ghost before = bands@;
    bands.insert(p, t);
    proof {
        let vb = crate::text::views(before);
        let va = crate::text::views(bands@);
        assert(va[p as int] == t@);
        assert(va.contains(t@));
        assert forall|q: int| 0 <= q < bands@.len() implies (q < p ==> bands@[q] == before[q]) && (q > p ==> bands@[q] == before[q - 1]) by {}
        if p < n {
            assert(!text_before(vb[p as int], t@));
            assert(vb[p as int] != t@);
            lemma_before_total(vb[p as int], t@);
        }
        assert forall|i: int, j: int| 0 <= i < j < va.len() implies text_before(#[trigger] va[i], #[trigger] va[j]) by {
            if j < p {
                assert(vb[i] == va[i] && vb[j] == va[j]);
            } else if j == p {
                assert(va[i] == before[i]@);
            } else if i < p {
                assert(va[i] == before[i]@);
                assert(va[j] == vb[j - 1]);
                if p < j - 1 {
                    assert(text_before(vb[p as int], vb[j - 1]));
                    lemma_before_transitive(t@, vb[p as int], vb[j - 1]);
                }
                lemma_before_transitive(va[i], t@, va[j]);
            } else if i == p {
                assert(va[j] == vb[j - 1]);
                if p < j - 1 {
                    assert(text_before(vb[p as int], vb[j - 1]));
                    lemma_before_transitive(t@, vb[p as int], vb[j - 1]);
                }
            } else {
                assert(va[i] == vb[i - 1] && va[j] == vb[j - 1]);
            }
        }
        assert forall|x: Seq<char>| #[trigger] vb.contains(x) implies va.contains(x) by {
            let q = choose|q: int| 0 <= q < vb.len() && vb[q] == x;
            if q < p {
                assert(va[q] == x);
            } else {
                assert(va[q + 1] == x);
            }
        }
        assert forall|i: int| 0 <= i < bands@.len() implies vb.contains(#[trigger] bands@[i]@) || (bands@[i]@ == trim(id@) && trim(id@).len() > 0) by {
            if i < p {
                assert(vb[i] == bands@[i]@);
            } else if i > p {
                assert(vb[i - 1] == bands@[i]@);
            }
        }
    }
}

/// Each listed band stays listed when `bands` gains entries.
proof fn lemma_listed_grows(old_bands: Seq<Vec<char>>, new_bands: Seq<Vec<char>>, b: Seq<char>)
    requires
        forall|x: Seq<char>| #[trigger] crate::text::views(old_bands).contains(x) ==> crate::text::views(new_bands).contains(x),
        band_listed(crate::text::views(old_bands), b),
    ensures
        band_listed(crate::text::views(new_bands), b),
{
}

/// The band of line `k`: the first identity that names it.
fn band_of_line(identities: &[PhysicalLineIdentity], k: usize) -> (r: Option<&String>)
    ensures
        match r {
            Some(s) => band_of(identities@, k as int) == Some(s@),
            None => band_of(identities@, k as int) is None,
        },
{
    let n = identities.len();
    let mut i: usize = 0;
    assert(identities@.skip(0) =~= identities@);
    while i < n
        invariant
            n == identities@.len(),
            i <= n,
            band_of(identities@, k as int) == band_of(identities@.skip(i as int), k as int),
        decreases n - i,
    {
        assert(identities@.skip(i as int)[0] == identities@[i as int]);
        if identities[i].line_index == k {
            return Some(&identities[i].physical_band_id);
        }
        assert(identities@.skip(i as int).drop_first() =~= identities@.skip(i + 1));
        i = i + 1;
    }
    assert(identities@.skip(n as int).len() == 0);
    None
}

/// Every run of non-blank lines of at most `span` lines, by start then length,
/// followed by the usable assisted readings.
proof fn lemma_usable_step(s: Seq<AssistedModifierObservation>, a: int)
    requires
        0 <= a < s.len(),
    ensures
        usable_indices(s.take(a + 1)) == (if assisted_usable(s[a]) {
            usable_indices(s.take(a)).push(a)
        } else {
            usable_indices(s.take(a))
        }),
{
    assert(s.take(a + 1).drop_last() =~= s.take(a));
    assert(s.take(a + 1).last() == s[a]);
}

proof fn lemma_usable_bound(s: Seq<AssistedModifierObservation>)
    ensures
        usable_indices(s).len() <= s.len(),
    decreases s.len(),
{
    if s.len() > 0 {
        lemma_usable_bound(s.drop_last());
    }
}

proof fn lemma_usable_prefix(s: Seq<AssistedModifierObservation>, a: int)
    requires
        0 <= a <= s.len(),
    ensures
        usable_indices(s.take(a)).len() <= usable_indices(s).len(),
        forall|j: int|
            0 <= j < usable_indices(s.take(a)).len() ==> #[trigger] usable_indices(s.take(a))[j] == usable_indices(s)[j],
    decreases s.len() - a,
{
    if a == s.len() {
        assert(s.take(a) =~= s);
    } else {
        lemma_usable_prefix(s, a + 1);
        lemma_usable_step(s, a);
        assert forall|j: int| 0 <= j < usable_indices(s.take(a)).len() implies #[trigger] usable_indices(s.take(a))[j]
            == usable_indices(s)[j] by {
            assert(usable_indices(s.take(a))[j] == usable_indices(s.take(a + 1))[j]);
        }
    }
}

/// Line reading `start..start+count` is among the prepared observations.
closed spec fn listed(preps: Seq<Prepared>, start: int, count: int) -> bool {
    exists|i: int| 0 <= i < preps.len() && (#[trigger] preps[i]).target is None && preps[i].start == start && preps[i].count == count
}

proof fn lemma_listed_push(preps: Seq<Prepared>, p: Prepared, start: int, count: int)
    requires
        listed(preps, start, count),
    ensures
        listed(preps.push(p), start, count),
{
    let i = choose|i: int| 0 <= i < preps.len() && (#[trigger] preps[i]).target is None && preps[i].start == start && preps[i].count == count;
    assert(preps.push(p)[i] == preps[i]);
}

/// The observations a reading can use. Those read off the physical lines are
/// exactly the runs of 1 to `span` consecutive non-blank lines, so none
/// crosses a blank line; each keeps its trimmed lines joined by spaces. Each
/// usable assisted reading is placed after the physical lines, one line
/// each; the others are dropped.
fn prepare_observations(
    lines: &[String],
    assisted: &[AssistedModifierObservation],
    identities: &[PhysicalLineIdentity],
    span: usize,
) -> (preps: Vec<Prepared>)
    requires
        1 <= span <= 8,
    ensures
        forall|s: int, c: int|
            #[trigger] listed(preps@, s, c) == crate::matching::span_readable(
                crate::text::string_views(lines@),
                s,
                c,
                span as int,
            ),
        forall|i: int|
            0 <= i < preps@.len() ==> prepared_ok(
                #[trigger] preps@[i],
                crate::text::string_views(lines@),
                span as int,
            ),
        forall|i: int| 0 <= i < preps@.len() ==> bands_ok(#[trigger] preps@[i], identities@, assisted@),
        forall|s: int, c: int|
            crate::matching::span_readable(crate::text::string_views(lines@), s, c, span as int) ==> #[trigger] listed(
                preps@,
                s,
                c,
            ),
        lines@.len() + assisted@.len() <= usize::MAX ==> forall|i: int|
            0 <= i < preps@.len() ==> prep_model_ok(#[trigger] preps@[i], crate::text::string_views(lines@), assisted@),
        lines@.len() + assisted@.len() <= usize::MAX ==> forall|j: int|
            0 <= j < usable_indices(assisted@).len() ==> #[trigger] listed_assisted(preps@, lines@.len() + j),
{
    let raw = crate::text::strings_to_lines(lines);
    let ghost ls = crate::text::string_views(lines@);
    let n = raw.len();
    let mut preps: Vec<Prepared> = Vec::new();
    let mut start: usize = 0;
    while start < n
        invariant
            n == raw@.len(),
            crate::text::views(raw@) == ls,
            ls == crate::text::string_views(lines@),
            1 <= span <= 8,
            start <= n,
            forall|i: int| 0 <= i < preps@.len() ==> prepared_ok(#[trigger] preps@[i], ls, span as int),
            forall|i: int| 0 <= i < preps@.len() ==> bands_ok(#[trigger] preps@[i], identities@, assisted@),
            forall|i: int| 0 <= i < preps@.len() ==> (#[trigger] preps@[i]).target is None,
            forall|s: int, c: int|
                s < start && crate::matching::span_readable(ls, s, c, span as int) ==> #[trigger] listed(preps@, s, c),
        decreases n - start,
    {
        let limit = if span < n - start {
            span
        } else {
            n - start
        };
        let mut count: usize = 1;
        let mut open = true;
        while open && count <= limit
            invariant
                n == raw@.len(),
                crate::text::views(raw@) == ls,
                ls == crate::text::string_views(lines@),
                1 <= span <= 8,
                start < n,
                1 <= count <= limit + 1,
                limit <= span,
                start + limit <= n,
                open ==> forall|k: int| start <= k < start + count - 1 ==> !crate::matching::blank(#[trigger] ls[k]),
                forall|i: int| 0 <= i < preps@.len() ==> prepared_ok(#[trigger] preps@[i], ls, span as int),
                forall|i: int| 0 <= i < preps@.len() ==> bands_ok(#[trigger] preps@[i], identities@, assisted@),
                forall|i: int| 0 <= i < preps@.len() ==> (#[trigger] preps@[i]).target is None,
                forall|s: int, c: int|
                    s < start && crate::matching::span_readable(ls, s, c, span as int) ==> #[trigger] listed(preps@, s, c),
                forall|c: int|
                    1 <= c < count && crate::matching::span_readable(ls, start as int, c, span as int) ==> #[trigger] listed(
                        preps@,
                        start as int,
                        c,
                    ),
                !open ==> count >= 1 && crate::matching::blank(ls[start + count - 1]),
                limit as int == (if span < n - start { span as int } else { n - start }),
            decreases limit + 1 - count, if open { 1int } else { 0int },
        {
            let last = start + count - 1;
            assert(ls[last as int] == raw@[last as int]@);
            if crate::matching::is_blank(raw[last].as_slice()) {
                open = false;
            } else {
                let source = crate::matching::join_lines(raw.as_slice(), start, start + count);
                assert(crate::text::views(raw@).subrange(start as int, (start + count) as int) =~= ls.subrange(
                    start as int,
                    start + count,
                ));
                let (tokens, values) = crate::matching::lex_chars(source.as_slice());
                let original = crate::matching::plain_join(raw.as_slice(), start, start + count);
                let mut bands: Vec<Vec<char>> = Vec::new();
                let end = start + count;
                let mut k = start;
                while k < end
                    invariant
                        start <= k <= end,
                        line_bands_listed(crate::text::views(bands@), identities@, start as int, k as int),
                        forall|i: int|
                            0 <= i < bands@.len() ==> line_band_in(identities@, start as int, k as int, #[trigger] bands@[i]@),
                        strictly_sorted(crate::text::views(bands@)),
                    decreases end - k,
                {
                    let ghost before = bands@;
                    match band_of_line(identities, k) {
                        Some(id) => add_band(&mut bands, id),
                        None => {},
                    }
                    assert forall|i: int| 0 <= i < bands@.len() implies line_band_in(
                        identities@,
                        start as int,
                        k + 1,
                        #[trigger] bands@[i]@,
                    ) by {
                        if crate::text::views(before).contains(bands@[i]@) {
                            let q = choose|q: int| 0 <= q < crate::text::views(before).len() && crate::text::views(before)[q] == bands@[i]@;
                            assert(line_band_in(identities@, start as int, k as int, before[q]@));
                            let w = choose|w: int|
                                start <= w < k && #[trigger] band_of(identities@, w) is Some && trim(
                                    band_of(identities@, w).unwrap(),
                                ) == before[q]@ && before[q]@.len() > 0;
                            assert(band_of(identities@, w) is Some);
                        } else {
                            assert(band_of(identities@, k as int) is Some);
                        }
                    }
                    assert forall|j: int| start <= j < k + 1 implies match #[trigger] band_of(identities@, j) {
                        Some(b) => band_listed(crate::text::views(bands@), b),
                        None => true,
                    } by {
                        if j < k {
                            match band_of(identities@, j) {
                                Some(b) => lemma_listed_grows(before, bands@, b),
                                None => {},
                            }
                        }
                    }
                    k = k + 1;
                }
                let p = Prepared { start, count, original, tokens, values, target: None, bands };
                assert(prepared_ok(p, ls, span as int));
                assert(bands_ok(p, identities@, assisted@));
                let ghost before = preps@;
                preps.push(p);
                proof {
                    assert(preps@[before.len() as int] == p);
                    assert(listed(preps@, start as int, count as int));
                    assert forall|s: int, c: int|
                        s < start && crate::matching::span_readable(ls, s, c, span as int) implies #[trigger] listed(
                        preps@,
                        s,
                        c,
                    ) by {
                        lemma_listed_push(before, p, s, c);
                    }
                    assert forall|c: int|
                        1 <= c < count + 1 && crate::matching::span_readable(ls, start as int, c, span as int) implies #[trigger] listed(
                        preps@,
                        start as int,
                        c,
                    ) by {
                        if c < count {
                            lemma_listed_push(before, p, start as int, c);
                        }
                    }
                }
                count = count + 1;
            }
        }
        proof {
            assert forall|s: int, c: int|
                s < start + 1 && crate::matching::span_readable(ls, s, c, span as int) implies #[trigger] listed(
                preps@,
                s,
                c,
            ) by {
                if s == start {
                    if open {
                        assert(c <= limit);
                    } else {
                        if c >= count {
                            assert(!crate::matching::blank(ls[start + count - 1]));
                        }
                    }
                }
            }
        }
        start = start + 1;
    }
    let mut index: usize = 0;
    let count = assisted.len();
    let mut a: usize = 0;
    assert(assisted@.take(0) =~= Seq::<AssistedModifierObservation>::empty());
    while a < count
        invariant
            count == assisted@.len(),
            a <= count,
            n == ls.len(),
            ls == crate::text::string_views(lines@),
            forall|i: int| 0 <= i < preps@.len() ==> prepared_ok(#[trigger] preps@[i], ls, span as int),
            forall|i: int| 0 <= i < preps@.len() ==> bands_ok(#[trigger] preps@[i], identities@, assisted@),
            forall|s: int, c: int| crate::matching::span_readable(ls, s, c, span as int) ==> #[trigger] listed(preps@, s, c),
            n + count <= usize::MAX ==> index == usable_indices(assisted@.take(a as int)).len(),
            n + count <= usize::MAX ==> forall|j: int| 0 <= j < index ==> #[trigger] listed_assisted(preps@, n + j),
            n + count <= usize::MAX ==> forall|i: int| 0 <= i < preps@.len() ==> prep_model_ok(#[trigger] preps@[i], ls, assisted@),
        decreases count - a,
    {
        let item = &assisted[a];
        proof {
            lemma_usable_step(assisted@, a as int);
            lemma_usable_prefix(assisted@, a + 1);
            lemma_usable_bound(assisted@.take(a as int));
        }
        let ghost old_index = index;
        let ghost old_preps = preps@;
        let original = trim_chars(crate::text::chars_of(item.original_text.as_str()).as_slice());
        let band = trim_chars(crate::text::chars_of(item.physical_band_id.as_str()).as_slice());
        let target = trim_chars(crate::text::chars_of(item.canonical_target.as_str()).as_slice());
        if original.len() > 0 && band.len() > 0 && target.len() > 0 && index < usize::MAX - n {
            let verified = crate::matching::canonicalize(item.canonical_target.as_str());
            let verified_text = crate::text::chars_of(verified.text.as_str());
            let verified_text = trim_chars(verified_text.as_slice());
            if verified_text.len() > 0 {
                let text = crate::text::chars_of(item.original_text.as_str());
                let split = crate::text::split_lines(text.as_slice());
                let source = crate::matching::join_lines(split.as_slice(), 0, split.len());
                let (tokens, values) = crate::matching::lex_chars(source.as_slice());
                let mut bands: Vec<Vec<char>> = Vec::new();
                let r = item.related_physical_band_ids.len();
                let mut k: usize = 0;
                while k < r
                    invariant
                        r == item.related_physical_band_ids@.len(),
                        k <= r,
                        strictly_sorted(crate::text::views(bands@)),
                        forall|i: int| 0 <= i < bands@.len() ==> assisted_band_in(*item, #[trigger] bands@[i]@),
                        forall|i: int| 0 <= i < k ==> band_listed(crate::text::views(bands@), #[trigger] item.related_physical_band_ids@[i]@),
                    decreases r - k,
                {
                    let ghost before = bands@;
                    add_band(&mut bands, &item.related_physical_band_ids[k]);
                    proof {
                        assert forall|i: int| 0 <= i < bands@.len() implies assisted_band_in(*item, #[trigger] bands@[i]@) by {
                            if crate::text::views(before).contains(bands@[i]@) {
                                let q = choose|q: int| 0 <= q < crate::text::views(before).len() && crate::text::views(before)[q] == bands@[i]@;
                                assert(assisted_band_in(*item, before[q]@));
                            } else {
                                assert(trim(item.related_physical_band_ids@[k as int]@) == bands@[i]@);
                            }
                        }
                        assert forall|i: int| 0 <= i < k + 1 implies band_listed(crate::text::views(bands@), #[trigger] item.related_physical_band_ids@[i]@) by {
                            if i < k {
                                lemma_listed_grows(before, bands@, item.related_physical_band_ids@[i]@);
                            }
                        }
                    }
                    k = k + 1;
                }
                let ghost before_own = bands@;
                add_band(&mut bands, &item.physical_band_id);
                proof {
                    assert forall|i: int| 0 <= i < bands@.len() implies assisted_band_in(*item, #[trigger] bands@[i]@) by {
                        if crate::text::views(before_own).contains(bands@[i]@) {
                            let q = choose|q: int| 0 <= q < crate::text::views(before_own).len() && crate::text::views(before_own)[q] == bands@[i]@;
                            assert(assisted_band_in(*item, before_own[q]@));
                        }
                    }
                    assert forall|i: int| 0 <= i < r implies band_listed(crate::text::views(bands@), #[trigger] item.related_physical_band_ids@[i]@) by {
                        lemma_listed_grows(before_own, bands@, item.related_physical_band_ids@[i]@);
                    }
                    assert forall|x: Seq<char>| #[trigger] assisted_band_in(*item, x) implies crate::text::views(bands@).contains(x) by {
                        if trim(item.physical_band_id@) != x {
                            let i = choose|i: int|
                                0 <= i < item.related_physical_band_ids@.len() && trim(#[trigger] item.related_physical_band_ids@[i]@) == x;
                            assert(band_listed(crate::text::views(bands@), item.related_physical_band_ids@[i]@));
                        }
                    }
                }
                assert(from_assisted(crate::text::views(bands@), original@, assisted@[a as int]));
                let p = Prepared {
                    start: n + index,
                    count: 1,
                    original,
                    tokens,
                    values,
                    target: Some(verified_text),
                    bands,
                };
                assert(prepared_ok(p, ls, span as int));
                assert(bands_ok(p, identities@, assisted@));
                proof {
                    if n + count <= usize::MAX {
                        assert(assisted_usable(assisted@[a as int]));
                        assert(usable_indices(assisted@.take(a + 1))[index as int] == a);
                        assert(usable_indices(assisted@)[index as int] == a);
                        assert(crate::text::views(split@).subrange(0, split@.len() as int) =~= crate::text::views(split@));
                        assert(prep_model_ok(p, ls, assisted@));
                    }
                }
                let ghost before = preps@;
                preps.push(p);
                proof {
                    assert forall|s: int, c: int| crate::matching::span_readable(ls, s, c, span as int) implies #[trigger] listed(
                        preps@,
                        s,
                        c,
                    ) by {
                        lemma_listed_push(before, p, s, c);
                    }
                    if n + count <= usize::MAX {
                        assert(preps@[before.len() as int] == p);
                        assert(listed_assisted(preps@, n + index));
                        assert forall|j: int| 0 <= j < index + 1 implies #[trigger] listed_assisted(preps@, n + j) by {
                            if j < index {
                                assert(listed_assisted(before, n + j));
                                let w = choose|w: int| 0 <= w < before.len() && (#[trigger] before[w]).target is Some && before[w].start == n + j && before[w].count == 1;
                                assert(preps@[w] == before[w]);
                            }
                        }
                        assert forall|i: int| 0 <= i < preps@.len() implies prep_model_ok(#[trigger] preps@[i], ls, assisted@) by {
                            if i < before.len() {
                                assert(preps@[i] == before[i]);
                            }
                        }
                    }
                }
                index = index + 1;
            }
        }
        proof {
            if n + count <= usize::MAX && index == old_index {
                assert(preps@ == old_preps);
            }
        }
        a = a + 1;
    }
    proof {
        assert(assisted@.take(count as int) =~= assisted@);
        assert forall|s: int, c: int| #[trigger] listed(preps@, s, c) implies crate::matching::span_readable(
            crate::text::string_views(lines@),
            s,
            c,
            span as int,
        ) by {
            let i = choose|i: int|
                0 <= i < preps@.len() && (#[trigger] preps@[i]).target is None && preps@[i].start == s && preps@[i].count
                    == c;
            assert(prepared_ok(preps@[i], crate::text::string_views(lines@), span as int));
        }
    }
    preps
}

// ---------------------------------------------------------------------------
// Candidates
// ---------------------------------------------------------------------------

/// The value shown in slot `k`, when there is one.
pub open spec fn value_at(values: Seq<Option<Decimal>>, k: int) -> Option<int> {
    if 0 <= k < values.len() {
        units_of(values[k])
    } else {
        None
    }
}

/// Evidence for every slot: each constraint checked against the value its
/// slot shows.
pub open spec fn slots_ok(
    slots: Seq<NumericSlotEvidence>,
    constraints: Seq<NumericConstraint>,
    values: Seq<Option<Decimal>>,
) -> bool {
    &&& slots.len() == constraints.len()
    &&& forall|k: int|
        0 <= k < slots.len() ==> {
            &&& (#[trigger] slots[k]).slot_index == k
            &&& slots[k].constraint == constraints[k]
            &&& units_of(slots[k].actual_value) == value_at(values, k)
            &&& slots[k].is_satisfied == constraint_holds(constraints[k], value_at(values, k))
        }
}

pub open spec fn all_satisfied(slots: Seq<NumericSlotEvidence>) -> bool {
    forall|k: int| 0 <= k < slots.len() ==> (#[trigger] slots[k]).is_satisfied
}

struct Candidate {
    obs: usize,
    values: Vec<Option<Decimal>>,
    slots: Vec<NumericSlotEvidence>,
    numeric_ok: bool,
    satisfied: usize,
}

/// A candidate is an observation that reads as the condition's template.
closed spec fn candidate_ok(c: Candidate, cc: CompiledCondition, preps: Seq<Prepared>) -> bool {
    &&& c.obs < preps.len()
    &&& preps[c.obs as int].count <= cc.matcher.span()
    &&& match preps[c.obs as int].target {
        None => crate::matching::tokens_fit(cc.matcher.shape(), affix_views(preps[c.obs as int].tokens@))
            && c.values@ == preps[c.obs as int].values@,
        Some(t) => t@ == display(cc.matcher.shape()) && if slot_kinds(cc.matcher.shape()) == slot_kinds(
            affix_views(preps[c.obs as int].tokens@),
        ) {
            c.values@ == preps[c.obs as int].values@
        } else {
            crate::matching::values_view(c.values@) == Seq::new(slot_count(cc.matcher.shape()), |k: int| None::<int>)
        },
    }
    &&& slots_ok(c.slots@, cc.constraints@, c.values@)
    &&& c.numeric_ok == all_satisfied(c.slots@)
    &&& c.satisfied == count_true(sat_flags(c.slots@))
}

/// Which slots hold.
spec fn sat_flags(slots: Seq<NumericSlotEvidence>) -> Seq<bool> {
    Seq::new(slots.len(), |k: int| slots[k].is_satisfied)
}

/// Candidate `a` ranks no higher than `b`: by numeric match, then by the
/// number of slots that hold.
spec fn key_le(a: Candidate, b: Candidate) -> bool {
    (!a.numeric_ok && b.numeric_ok) || (a.numeric_ok == b.numeric_ok && a.satisfied <= b.satisfied)
}

fn evaluate_slots(constraints: &Vec<NumericConstraint>, values: &Vec<Option<Decimal>>) -> (r: (Vec<NumericSlotEvidence>, bool, usize))
    ensures
        slots_ok(r.0@, constraints@, values@),
        r.1 == all_satisfied(r.0@),
        r.2 == count_true(sat_flags(r.0@)),
{
    let n = constraints.len();
    let mut slots: Vec<NumericSlotEvidence> = Vec::new();
    let mut ok = true;
    let mut satisfied: usize = 0;
    let mut k: usize = 0;
    while k < n
        invariant
            n == constraints@.len(),
            k <= n,
            slots@.len() == k,
            satisfied <= k,
            forall|m: int|
                0 <= m < k ==> {
                    &&& (#[trigger] slots@[m]).slot_index == m
                    &&& slots@[m].constraint == constraints@[m]
                    &&& units_of(slots@[m].actual_value) == value_at(values@, m)
                    &&& slots@[m].is_satisfied == constraint_holds(constraints@[m], value_at(values@, m))
                },
            ok == all_satisfied(slots@),
            satisfied == count_true(sat_flags(slots@)),
        decreases n - k,
    {
        let actual = if k < values.len() {
            values[k]
        } else {
            None
        };
        let holds = constraint_satisfied(&constraints[k], actual);
        let ghost before = slots@;
        slots.push(NumericSlotEvidence { slot_index: k, actual_value: actual, constraint: constraints[k], is_satisfied: holds });
        assert(slots@.drop_last() =~= before);
        assert(all_satisfied(slots@) == (all_satisfied(before) && holds)) by {
            if all_satisfied(before) && holds {
                assert forall|m: int| 0 <= m < slots@.len() implies (#[trigger] slots@[m]).is_satisfied by {
                    if m < before.len() {
                        assert(slots@[m] == before[m]);
                    }
                }
            }
            if all_satisfied(slots@) {
                assert(slots@[k as int].is_satisfied);
                assert forall|m: int| 0 <= m < before.len() implies (#[trigger] before[m]).is_satisfied by {
                    assert(slots@[m] == before[m]);
                }
            }
        }
        assert(sat_flags(slots@).drop_last() =~= sat_flags(before));
        if holds {
            satisfied = satisfied + 1;
        }
        ok = ok && holds;
        k = k + 1;
    }
    (slots, ok, satisfied)
}

/// Do two token vectors have the same slot kinds, in order?
/// The kinds of the numeric slots of a token sequence, in order.
pub open spec fn slot_kinds(t: Seq<(crate::matching::AffixTokenKind, Seq<char>)>) -> Seq<crate::matching::AffixTokenKind>
    decreases t.len(),
{
    if t.len() == 0 {
        Seq::empty()
    } else if t[0].0 is Word {
        slot_kinds(t.drop_first())
    } else {
        seq![t[0].0] + slot_kinds(t.drop_first())
    }
}

fn same_slot_kinds(a: &Vec<crate::matching::AffixToken>, b: &Vec<crate::matching::AffixToken>) -> (r: bool)
    ensures
        r == (slot_kinds(affix_views(a@)) == slot_kinds(affix_views(b@))),
{
    let mut i: usize = 0;
    let mut j: usize = 0;
    let n = a.len();
    let m = b.len();
    let ghost va = affix_views(a@);
    let ghost vb = affix_views(b@);
    assert(va.skip(0) =~= va);
    assert(vb.skip(0) =~= vb);
    while i < n || j < m
        invariant
            n == a@.len(),
            m == b@.len(),
            va == affix_views(a@),
            vb == affix_views(b@),
            i <= n,
            j <= m,
            (slot_kinds(va) == slot_kinds(vb)) == (slot_kinds(va.skip(i as int)) == slot_kinds(vb.skip(j as int))),
        decreases (n - i) + (m - j),
    {
        if i < n {
            assert(va.skip(i as int)[0] == va[i as int]);
            assert(va.skip(i as int).drop_first() =~= va.skip(i + 1));
        }
        if j < m {
            assert(vb.skip(j as int)[0] == vb[j as int]);
            assert(vb.skip(j as int).drop_first() =~= vb.skip(j + 1));
        }
        if i < n && a[i].kind.is_word() {
            i = i + 1;
        } else if j < m && b[j].kind.is_word() {
            j = j + 1;
        } else if i < n && j < m {
            if a[i].kind != b[j].kind {
                assert(slot_kinds(va.skip(i as int))[0] != slot_kinds(vb.skip(j as int))[0]);
                return false;
            }
            proof {
                let ka = slot_kinds(va.skip(i as int));
                let kb = slot_kinds(vb.skip(j as int));
                let ra = slot_kinds(va.skip(i + 1));
                let rb = slot_kinds(vb.skip(j + 1));
                assert(ka == seq![va[i as int].0] + ra);
                assert(kb == seq![vb[j as int].0] + rb);
                if ra == rb {
                    assert(ka =~= kb);
                } else {
                    assert(ka.drop_first() =~= ra);
                    assert(kb.drop_first() =~= rb);
                }
            }
            i = i + 1;
            j = j + 1;
        } else {
            if i < n {
                assert(slot_kinds(va.skip(i as int)).len() > 0);
                assert(vb.skip(j as int).len() == 0);
            } else {
                assert(slot_kinds(vb.skip(j as int)).len() > 0);
                assert(va.skip(i as int).len() == 0);
            }
            return false;
        }
    }
    assert(va.skip(i as int).len() == 0);
    assert(vb.skip(j as int).len() == 0);
    true
}

fn none_values(n: usize) -> (v: Vec<Option<Decimal>>)
    ensures
        crate::matching::values_view(v@) == Seq::new(n as nat, |k: int| None::<int>),
{
    let mut v: Vec<Option<Decimal>> = Vec::new();
    let mut k: usize = 0;
    while k < n
        invariant
            k <= n,
            v@.len() == k,
            forall|i: int| 0 <= i < k ==> (#[trigger] v@[i]) is None,
        decreases n - k,
    {
        v.push(None);
        k = k + 1;
    }
    assert(crate::matching::values_view(v@) =~= Seq::new(n as nat, |k: int| None::<int>));
    v
}

fn copy_values(v: &Vec<Option<Decimal>>) -> (r: Vec<Option<Decimal>>)
    ensures
        r@ == v@,
{
    let n = v.len();
    let mut r: Vec<Option<Decimal>> = Vec::new();
    let mut k: usize = 0;
    while k < n
        invariant
            n == v@.len(),
            k <= n,
            r@ == v@.take(k as int),
        decreases n - k,
    {
        r.push(v[k]);
        assert(v@.take(k + 1) =~= v@.take(k as int).push(v@[k as int]));
        k = k + 1;
    }
    assert(v@.take(n as int) =~= v@);
    r
}

/// Every observation that reads as the condition's template, in order.
/// Observation `i` is among the candidates.
closed spec fn has_cand(cands: Seq<Candidate>, i: int) -> bool {
    exists|x: int| 0 <= x < cands.len() && (#[trigger] cands[x]).obs == i
}

/// Prepared observation `p` reads as the condition's template.
closed spec fn prep_fits(p: Prepared, cc: CompiledCondition) -> bool {
    &&& p.count <= cc.matcher.span()
    &&& match p.target {
        None => crate::matching::tokens_fit(cc.matcher.shape(), affix_views(p.tokens@)),
        Some(t) => t@ == display(cc.matcher.shape()),
    }
}

fn find_candidates(cc: &CompiledCondition, preps: &Vec<Prepared>) -> (cands: Vec<Candidate>)
    ensures
        forall|i: int| 0 <= i < cands@.len() ==> candidate_ok(#[trigger] cands@[i], *cc, preps@),
        forall|i: int| 0 <= i < preps@.len() && prep_fits(#[trigger] preps@[i], *cc) ==> has_cand(cands@, i),
{
    let n = preps.len();
    let template = cc.matcher.template();
    let span = cc.matcher.maximum_line_span();
    let (expected_slots, _) = count_slots(&template.tokens);
    let mut cands: Vec<Candidate> = Vec::new();
    let mut i: usize = 0;
    while i < n
        invariant
            n == preps@.len(),
            i <= n,
            span == cc.matcher.span(),
            affix_views(template.tokens@) == cc.matcher.shape(),
            template.text@ == display(cc.matcher.shape()),
            expected_slots == slot_count(cc.matcher.shape()),
            forall|k: int| 0 <= k < cands@.len() ==> candidate_ok(#[trigger] cands@[k], *cc, preps@),
            forall|j: int| 0 <= j < i && prep_fits(#[trigger] preps@[j], *cc) ==> has_cand(cands@, j),
        decreases n - i,
    {
        let p = &preps[i];
        let fits = match &p.target {
            Some(t) => crate::text::same_chars(crate::text::chars_of(template.text.as_str()).as_slice(), t.as_slice()),
            None => crate::matching::tokens_fit_exec(&template.tokens, &p.tokens),
        };
        if fits && p.count <= span {
            let values = match &p.target {
                None => copy_values(&p.values),
                Some(_) => {
                    if same_slot_kinds(&template.tokens, &p.tokens) {
                        copy_values(&p.values)
                    } else {
                        none_values(expected_slots)
                    }
                },
            };
            let (slots, ok, satisfied) = evaluate_slots(&cc.constraints, &values);
            let c = Candidate { obs: i, values, slots, numeric_ok: ok, satisfied };
            assert(candidate_ok(c, *cc, preps@));
            let ghost old_cands = cands@;
            cands.push(c);
            assert(cands@[cands@.len() - 1].obs == i);
            assert forall|j: int| 0 <= j < i + 1 && prep_fits(#[trigger] preps@[j], *cc) implies has_cand(cands@, j) by {
                if j < i {
                    let x = choose|x: int| 0 <= x < old_cands.len() && (#[trigger] old_cands[x]).obs == j;
                    assert(cands@[x] == old_cands[x]);
                }
            }
        }
        i = i + 1;
    }
    cands
}

// ---------------------------------------------------------------------------
// Components: observations that share a physical modifier
// ---------------------------------------------------------------------------

pub open spec fn ranges_overlap(s1: int, c1: int, s2: int, c2: int) -> bool {
    s1 < s2 + c2 && s2 < s1 + c1
}

pub open spec fn shares_band(a: Seq<Seq<char>>, b: Seq<Seq<char>>) -> bool {
    exists|i: int, j: int| 0 <= i < a.len() && 0 <= j < b.len() && #[trigger] a[i] == #[trigger] b[j]
}

/// Two observations read (part of) the same physical modifier: their lines
/// overlap or they carry a common band.
closed spec fn touch(p: Prepared, q: Prepared) -> bool {
    ranges_overlap(p.start as int, p.count as int, q.start as int, q.count as int) || shares_band(
        crate::text::views(p.bands@),
        crate::text::views(q.bands@),
    )
}

fn shares_band_exec(a: &Vec<Vec<char>>, b: &Vec<Vec<char>>) -> (r: bool)
    ensures
        r == shares_band(crate::text::views(a@), crate::text::views(b@)),
{
    let n = a.len();
    let m = b.len();
    let mut i: usize = 0;
    while i < n
        invariant
            n == a@.len(),
            m == b@.len(),
            i <= n,
            forall|x: int, y: int| 0 <= x < i && 0 <= y < m ==> a@[x]@ != b@[y]@,
        decreases n - i,
    {
        let mut j: usize = 0;
        while j < m
            invariant
                n == a@.len(),
                m == b@.len(),
                i < n,
                j <= m,
                forall|x: int, y: int| 0 <= x < i && 0 <= y < m ==> a@[x]@ != b@[y]@,
                forall|y: int| 0 <= y < j ==> a@[i as int]@ != b@[y]@,
            decreases m - j,
        {
            if crate::text::same_chars(a[i].as_slice(), b[j].as_slice()) {
                assert(crate::text::views(a@)[i as int] == crate::text::views(b@)[j as int]);
                return true;
            }
            j = j + 1;
        }
        i = i + 1;
    }
    assert forall|x: int, y: int| 0 <= x < n && 0 <= y < m implies crate::text::views(a@)[x] != crate::text::views(b@)[y] by {
        assert(a@[x]@ != b@[y]@);
    }
    false
}

fn touches(p: &Prepared, q: &Prepared) -> (r: bool)
    ensures
        r == touch(*p, *q),
{
    let overlap = (p.start as u128) < (q.start as u128) + (q.count as u128) && (q.start as u128) < (p.start as u128) + (p.count as u128);
    overlap || shares_band_exec(&p.bands, &q.bands)
}

proof fn lemma_touch_symmetric(p: Prepared, q: Prepared)
    ensures
        touch(p, q) == touch(q, p),
{
    if shares_band(crate::text::views(p.bands@), crate::text::views(q.bands@)) {
        let (i, j) = choose|i: int, j: int| 0 <= i < crate::text::views(p.bands@).len() && 0 <= j < crate::text::views(q.bands@).len() && #[trigger] crate::text::views(p.bands@)[i] == #[trigger] crate::text::views(q.bands@)[j];
        assert(crate::text::views(q.bands@)[j] == crate::text::views(p.bands@)[i]);
    }
    if shares_band(crate::text::views(q.bands@), crate::text::views(p.bands@)) {
        let (i, j) = choose|i: int, j: int| 0 <= i < crate::text::views(q.bands@).len() && 0 <= j < crate::text::views(p.bands@).len() && #[trigger] crate::text::views(q.bands@)[i] == #[trigger] crate::text::views(p.bands@)[j];
        assert(crate::text::views(p.bands@)[j] == crate::text::views(q.bands@)[i]);
    }
}

/// `path` steps through candidate observations, each touching the next.
closed spec fn idx_chain(preps: Seq<Prepared>, mask: Seq<bool>, path: Seq<int>) -> bool {
    &&& path.len() >= 1
    &&& forall|i: int| 0 <= i < path.len() ==> 0 <= #[trigger] path[i] < preps.len() && mask.len() == preps.len() && mask[path[i]]
    &&& forall|i: int| 0 <= i < path.len() - 1 ==> touch(preps[#[trigger] path[i]], preps[path[i + 1]])
}

/// Candidate observations `a` and `b` are joined by a chain of touching
/// candidates.
closed spec fn idx_joined(preps: Seq<Prepared>, mask: Seq<bool>, a: int, b: int) -> bool {
    exists|path: Seq<int>| #[trigger] idx_chain(preps, mask, path) && path[0] == a && path.last() == b
}

proof fn lemma_joined_self(preps: Seq<Prepared>, mask: Seq<bool>, a: int)
    requires
        0 <= a < preps.len(),
        mask.len() == preps.len(),
        mask[a],
    ensures
        idx_joined(preps, mask, a, a),
{
    let path = seq![a];
    assert(idx_chain(preps, mask, path));
}

proof fn lemma_joined_step(preps: Seq<Prepared>, mask: Seq<bool>, a: int, x: int, y: int, b: int)
    requires
        idx_joined(preps, mask, a, x),
        idx_joined(preps, mask, y, b),
        touch(preps[x], preps[y]),
    ensures
        idx_joined(preps, mask, a, b),
{
    let p1 = choose|path: Seq<int>| #[trigger] idx_chain(preps, mask, path) && path[0] == a && path.last() == x;
    let p2 = choose|path: Seq<int>| #[trigger] idx_chain(preps, mask, path) && path[0] == y && path.last() == b;
    let path = p1 + p2;
    assert forall|i: int| 0 <= i < path.len() implies 0 <= #[trigger] path[i] < preps.len() && mask.len() == preps.len() && mask[path[i]] by {
        if i < p1.len() {
            assert(path[i] == p1[i]);
        } else {
            assert(path[i] == p2[i - p1.len()]);
        }
    }
    assert forall|i: int| 0 <= i < path.len() - 1 implies touch(preps[#[trigger] path[i]], preps[path[i + 1]]) by {
        if i < p1.len() - 1 {
            assert(path[i] == p1[i]);
            assert(path[i + 1] == p1[i + 1]);
        } else if i == p1.len() - 1 {
            assert(path[i] == x);
            assert(path[i + 1] == y);
        } else {
            assert(path[i] == p2[i - p1.len()]);
            assert(path[i + 1] == p2[i + 1 - p1.len()]);
        }
    }
    assert(idx_chain(preps, mask, path));
}

/// Same labels, among candidates, only ever join touching chains.
closed spec fn labels_joined(preps: Seq<Prepared>, mask: Seq<bool>, labels: Seq<usize>) -> bool {
    forall|a: int, b: int|
        #![trigger labels[a], labels[b]]
        0 <= a < labels.len() && 0 <= b < labels.len() && mask[a] && mask[b] && labels[a] == labels[b] ==> idx_joined(
            preps,
            mask,
            a,
            b,
        )
}

proof fn lemma_relabel_joined(
    preps: Seq<Prepared>,
    mask: Seq<bool>,
    old_labels: Seq<usize>,
    new_labels: Seq<usize>,
    i: int,
    j: int,
)
    requires
        labels_joined(preps, mask, old_labels),
        old_labels.len() == preps.len(),
        mask.len() == preps.len(),
        new_labels.len() == old_labels.len(),
        0 <= i < preps.len(),
        0 <= j < preps.len(),
        mask[i],
        mask[j],
        touch(preps[i], preps[j]),
        forall|k: int|
            0 <= k < old_labels.len() ==> #[trigger] new_labels[k] == (if old_labels[k] == old_labels[j] {
                old_labels[i]
            } else {
                old_labels[k]
            }),
    ensures
        labels_joined(preps, mask, new_labels),
{
    lemma_touch_symmetric(preps[i], preps[j]);
    assert forall|a: int, b: int|
        #![trigger new_labels[a], new_labels[b]]
        0 <= a < new_labels.len() && 0 <= b < new_labels.len() && mask[a] && mask[b] && new_labels[a] == new_labels[b]
            implies idx_joined(preps, mask, a, b) by {
        let from = old_labels[j];
        if old_labels[a] == from && old_labels[b] == from {
            assert(old_labels[a] == old_labels[b]);
        } else if old_labels[a] == from {
            assert(old_labels[a] == old_labels[j]);
            assert(old_labels[i] == old_labels[b]);
            lemma_joined_step(preps, mask, a, j, i, b);
        } else if old_labels[b] == from {
            assert(old_labels[a] == old_labels[i]);
            assert(old_labels[j] == old_labels[b]);
            lemma_joined_step(preps, mask, a, i, j, b);
        } else {
            assert(old_labels[a] == old_labels[b]);
        }
    }
}

/// Puts every observation labelled `from` under label `to`.
fn relabel(labels: &mut Vec<usize>, from: usize, to: usize)
    ensures
        final(labels)@.len() == old(labels)@.len(),
        forall|k: int|
            0 <= k < old(labels)@.len() ==> #[trigger] final(labels)@[k] == (if old(labels)@[k] == from {
                to
            } else {
                old(labels)@[k]
            }),
{
    let n = labels.len();
    let mut k: usize = 0;
    while k < n
        invariant
            n == labels@.len(),
            n == old(labels)@.len(),
            k <= n,
            forall|m: int|
                0 <= m < k ==> #[trigger] labels@[m] == (if old(labels)@[m] == from {
                    to
                } else {
                    old(labels)@[m]
                }),
            forall|m: int| k <= m < n ==> #[trigger] labels@[m] == old(labels)@[m],
        decreases n - k,
    {
        if labels[k] == from {
            labels.set(k, to);
        }
        k = k + 1;
    }
}

/// A component label for every observation: candidates that touch, directly
/// or through other candidates, share a label.
fn component_labels(preps: &Vec<Prepared>, is_cand: &Vec<bool>) -> (labels: Vec<usize>)
    requires
        is_cand@.len() == preps@.len(),
    ensures
        labels@.len() == preps@.len(),
        forall|k: int| 0 <= k < labels@.len() ==> #[trigger] labels@[k] < preps@.len(),
        forall|a: int, b: int|
            0 <= a < preps@.len() && 0 <= b < preps@.len() && is_cand@[a] && is_cand@[b] && touch(
                #[trigger] preps@[a],
                #[trigger] preps@[b],
            ) ==> labels@[a] == labels@[b],
        labels_joined(preps@, is_cand@, labels@),
{
    let n = preps.len();
    let mut labels: Vec<usize> = Vec::new();
    let mut k: usize = 0;
    while k < n
        invariant
            k <= n,
            n == preps@.len(),
            labels@.len() == k,
            forall|m: int| 0 <= m < k ==> #[trigger] labels@[m] == m,
        decreases n - k,
    {
        labels.push(k);
        k = k + 1;
    }
    assert(labels_joined(preps@, is_cand@, labels@)) by {
        assert forall|a: int, b: int|
            #![trigger labels@[a], labels@[b]]
            0 <= a < labels@.len() && 0 <= b < labels@.len() && is_cand@[a] && is_cand@[b] && labels@[a] == labels@[b]
                implies idx_joined(preps@, is_cand@, a, b) by {
            lemma_joined_self(preps@, is_cand@, a);
        }
    }
    let mut j: usize = 0;
    while j < n
        invariant
            n == preps@.len(),
            n == is_cand@.len(),
            labels@.len() == n,
            forall|m: int| 0 <= m < n ==> #[trigger] labels@[m] < n,
            j <= n,
            forall|a: int, b: int|
                0 <= a < j && 0 <= b < j && is_cand@[a] && is_cand@[b] && touch(
                    #[trigger] preps@[a],
                    #[trigger] preps@[b],
                ) ==> labels@[a] == labels@[b],
            labels_joined(preps@, is_cand@, labels@),
        decreases n - j,
    {
        if is_cand[j] {
            let mut i: usize = 0;
            while i < j
                invariant
                    n == preps@.len(),
                    n == is_cand@.len(),
                    labels@.len() == n,
                    forall|m: int| 0 <= m < n ==> #[trigger] labels@[m] < n,
                    j < n,
                    is_cand@[j as int],
                    i <= j,
                    forall|a: int, b: int|
                        0 <= a < j && 0 <= b < j && is_cand@[a] && is_cand@[b] && touch(
                            #[trigger] preps@[a],
                            #[trigger] preps@[b],
                        ) ==> labels@[a] == labels@[b],
                    forall|a: int|
                        0 <= a < i && is_cand@[a] && touch(#[trigger] preps@[a], preps@[j as int])
                            ==> labels@[a] == labels@[j as int],
                    labels_joined(preps@, is_cand@, labels@),
                decreases j - i,
            {
                if is_cand[i] && touches(&preps[i], &preps[j]) && labels[i] != labels[j] {
                    let from = labels[j];
                    let to = labels[i];
                    let ghost old_labels = labels@;
                    relabel(&mut labels, from, to);
                    proof {
                        lemma_relabel_joined(preps@, is_cand@, old_labels, labels@, i as int, j as int);
                    }
                }
                i = i + 1;
            }
            assert forall|a: int, b: int|
                0 <= a < j + 1 && 0 <= b < j + 1 && is_cand@[a] && is_cand@[b] && touch(
                    #[trigger] preps@[a],
                    #[trigger] preps@[b],
                ) implies labels@[a] == labels@[b] by {
                if a == j as int && b < j {
                    lemma_touch_symmetric(preps@[a], preps@[b]);
                }
            }
        }
        j = j + 1;
    }
    labels
}

// ---------------------------------------------------------------------------
// Sharing modifiers out among conditions
// ---------------------------------------------------------------------------

/// A condition may take a component through one of its candidates.
#[derive(Clone, Copy)]
struct Edge {
    label: usize,
    cand: usize,
}

/// Some edge leads to component `l`.
closed spec fn has_label(edges: Seq<Edge>, l: usize) -> bool {
    exists|q: int| 0 <= q < edges.len() && (#[trigger] edges[q]).label == l
}

closed spec fn edges_ok(edges: Seq<Edge>, cands: Seq<Candidate>, labels: Seq<usize>, p: int) -> bool {
    &&& forall|e: int|
        0 <= e < edges.len() ==> {
            &&& (#[trigger] edges[e]).cand < cands.len()
            &&& cands[edges[e].cand as int].numeric_ok
            &&& cands[edges[e].cand as int].obs < labels.len()
            &&& edges[e].label == labels[cands[edges[e].cand as int].obs as int]
            &&& edges[e].label < p
        }
    &&& forall|a: int, b: int| 0 <= a < b < edges.len() ==> (#[trigger] edges[a]).label < (#[trigger] edges[b]).label
}

/// Prepared observation `p` spans fewer lines than `q`, or as many and
/// starts no later.
spec fn lines_first(p: Prepared, q: Prepared) -> bool {
    p.count < q.count || (p.count == q.count && p.start <= q.start)
}

/// Each edge's candidate comes first, by lines then start, among the numeric
/// matches of its component.
closed spec fn edges_least(edges: Seq<Edge>, cands: Seq<Candidate>, labels: Seq<usize>, preps: Seq<Prepared>) -> bool {
    forall|e: int, x: int|
        0 <= e < edges.len() && 0 <= x < cands.len() && (#[trigger] cands[x]).numeric_ok && labels[cands[x].obs as int]
            == (#[trigger] edges[e]).label ==> lines_first(preps[cands[edges[e].cand as int].obs as int], preps[cands[x].obs as int])
}

/// For each component, the numeric match on the fewest lines (then the
/// earliest start), ordered by component label.
#[verifier::rlimit(50)]
fn component_edges(cands: &Vec<Candidate>, labels: &Vec<usize>, preps: &Vec<Prepared>) -> (edges: Vec<Edge>)
    requires
        labels@.len() == preps@.len(),
        forall|k: int| 0 <= k < labels@.len() ==> #[trigger] labels@[k] < preps@.len(),
        forall|i: int| 0 <= i < cands@.len() ==> (#[trigger] cands@[i]).obs < preps@.len(),
    ensures
        edges_ok(edges@, cands@, labels@, preps@.len() as int),
        forall|x: int| 0 <= x < cands@.len() && (#[trigger] cands@[x]).numeric_ok ==> has_label(edges@, labels@[cands@[x].obs as int]),
        edges_least(edges@, cands@, labels@, preps@),
{
    let n = cands.len();
    let mut edges: Vec<Edge> = Vec::new();
    let mut i: usize = 0;
    while i < n
        invariant
            n == cands@.len(),
            i <= n,
            labels@.len() == preps@.len(),
            forall|k: int| 0 <= k < labels@.len() ==> #[trigger] labels@[k] < preps@.len(),
            forall|x: int| 0 <= x < cands@.len() ==> (#[trigger] cands@[x]).obs < preps@.len(),
            edges_ok(edges@, cands@, labels@, preps@.len() as int),
            forall|x: int| 0 <= x < i && (#[trigger] cands@[x]).numeric_ok ==> has_label(edges@, labels@[cands@[x].obs as int]),
            forall|e: int| 0 <= e < edges@.len() ==> (#[trigger] edges@[e]).cand < i,
            forall|e: int, x: int|
                0 <= e < edges@.len() && 0 <= x < i && (#[trigger] cands@[x]).numeric_ok && labels@[cands@[x].obs as int]
                    == (#[trigger] edges@[e]).label ==> lines_first(
                    preps@[cands@[edges@[e].cand as int].obs as int],
                    preps@[cands@[x].obs as int],
                ),
        decreases n - i,
    {
        let ghost old_edges = edges@;
        if cands[i].numeric_ok {
            let label = labels[cands[i].obs];
            let m = edges.len();
            let mut p: usize = 0;
            while p < m && edges[p].label < label
                invariant
                    m == edges@.len(),
                    p <= m,
                    forall|x: int| 0 <= x < p ==> (#[trigger] edges@[x]).label < label,
                decreases m - p,
            {
                p = p + 1;
            }
            let e = Edge { label, cand: i };
            if p < m && edges[p].label == label {
                let current = &preps[cands[edges[p].cand].obs];
                let next = &preps[cands[i].obs];
                if next.count < current.count || (next.count == current.count && next.start < current.start) {
                    let ghost before = edges@;
                    edges.set(p, e);
                    assert(forall|a: int, b: int| 0 <= a < b < edges@.len() ==> #[trigger] edges@[a].label == before[a].label && #[trigger] edges@[b].label == before[b].label);
                    proof {
                        assert forall|q: int, x: int|
                            0 <= q < edges@.len() && 0 <= x < i + 1 && (#[trigger] cands@[x]).numeric_ok && labels@[cands@[x].obs as int]
                                == (#[trigger] edges@[q]).label implies lines_first(
                                preps@[cands@[edges@[q].cand as int].obs as int],
                                preps@[cands@[x].obs as int],
                            ) by {
                            if q == p {
                                if x < i {
                                    assert(before[q].label == label);
                                }
                            } else {
                                assert(edges@[q] == before[q]);
                                if x == i {
                                    if q < p {
                                        assert(before[q].label < before[p as int].label);
                                    } else {
                                        assert(before[p as int].label < before[q].label);
                                    }
                                }
                            }
                        }
                    }
                } else {
                    proof {
                        assert forall|q: int, x: int|
                            0 <= q < edges@.len() && 0 <= x < i + 1 && (#[trigger] cands@[x]).numeric_ok && labels@[cands@[x].obs as int]
                                == (#[trigger] edges@[q]).label implies lines_first(
                                preps@[cands@[edges@[q].cand as int].obs as int],
                                preps@[cands@[x].obs as int],
                            ) by {
                            if x == i && q != p {
                                if q < p {
                                    assert(edges@[q].label < edges@[p as int].label);
                                } else {
                                    assert(edges@[p as int].label < edges@[q].label);
                                }
                            }
                        }
                    }
                }
                assert(edges@[p as int].label == label);
            } else {
                let ghost before = edges@;
                proof {
                    assert forall|x: int| 0 <= x < i && (#[trigger] cands@[x]).numeric_ok implies labels@[cands@[x].obs as int]
                        != label by {
                        let q = choose|q: int| 0 <= q < before.len() && (#[trigger] before[q]).label == labels@[cands@[x].obs as int];
                        if labels@[cands@[x].obs as int] == label {
                            if q < p {
                            } else {
                                assert(p < m);
                                assert(before[p as int].label >= label);
                                if q > p {
                                    assert(before[p as int].label < before[q].label);
                                }
                            }
                        }
                    }
                }
                edges.insert(p, e);
                assert forall|a: int, b: int| 0 <= a < b < edges@.len() implies (#[trigger] edges@[a]).label < (#[trigger] edges@[b]).label by {
                    if b < p {
                        assert(edges@[a] == before[a] && edges@[b] == before[b]);
                    } else if b == p {
                        assert(edges@[a] == before[a]);
                    } else if a < p {
                        assert(edges@[a] == before[a] && edges@[b] == before[b - 1]);
                        if p < m {
                            assert(before[p as int].label > label);
                        }
                    } else if a == p {
                        assert(edges@[b] == before[b - 1]);
                        assert(before[p as int].label > label);
                        if b - 1 > p {
                            assert(before[p as int].label < before[b - 1].label);
                        }
                    } else {
                        assert(edges@[a] == before[a - 1] && edges@[b] == before[b - 1]);
                    }
                }
                assert(edges@[p as int].label == label);
                assert forall|q: int| 0 <= q < before.len() implies has_label(edges@, #[trigger] before[q].label) by {
                    if q < p {
                        assert(edges@[q] == before[q]);
                    } else {
                        assert(edges@[q + 1] == before[q]);
                    }
                }
                proof {
                    assert forall|q: int, x: int|
                        0 <= q < edges@.len() && 0 <= x < i + 1 && (#[trigger] cands@[x]).numeric_ok && labels@[cands@[x].obs as int]
                            == (#[trigger] edges@[q]).label implies lines_first(
                            preps@[cands@[edges@[q].cand as int].obs as int],
                            preps@[cands@[x].obs as int],
                        ) by {
                        if q < p {
                            assert(edges@[q] == before[q]);
                            if x == i {
                                assert(edges@[q].label < edges@[p as int].label);
                            }
                        } else if q > p {
                            assert(edges@[q] == before[q - 1]);
                            if x == i {
                                assert(edges@[p as int].label < edges@[q].label);
                            }
                        }
                    }
                }
            }
        }
        assert forall|x: int| 0 <= x < i + 1 && (#[trigger] cands@[x]).numeric_ok implies has_label(edges@, labels@[cands@[x].obs as int]) by {
            if x < i {
                let q = choose|q: int| 0 <= q < old_edges.len() && (#[trigger] old_edges[q]).label == labels@[cands@[x].obs as int];
                if edges@.len() == old_edges.len() {
                    assert(edges@[q].label == old_edges[q].label);
                } else {
                    assert(has_label(edges@, old_edges[q].label));
                }
            } else {
                let q = choose|q: int| 0 <= q < edges@.len() && (#[trigger] edges@[q]).label == labels@[cands@[x].obs as int];
            }
        }
        i = i + 1;
    }
    edges
}

/// How many of the flags are set.
pub open spec fn count_true(v: Seq<bool>) -> nat
    decreases v.len(),
{
    if v.len() == 0 {
        0
    } else {
        count_true(v.drop_last()) + if v.last() {
            1nat
        } else {
            0nat
        }
    }
}

proof fn lemma_count_true_mark(v: Seq<bool>, c: int)
    requires
        0 <= c < v.len(),
        !v[c],
    ensures
        count_true(v.update(c, true)) == count_true(v) + 1,
        count_true(v) < v.len(),
    decreases v.len(),
{
    let w = v.update(c, true);
    if c == v.len() - 1 {
        assert(w.drop_last() =~= v.drop_last());
        lemma_count_true_bound(v.drop_last());
    } else {
        assert(w.drop_last() =~= v.drop_last().update(c, true));
        lemma_count_true_mark(v.drop_last(), c);
    }
}

proof fn lemma_count_true_bound(v: Seq<bool>)
    ensures
        count_true(v) <= v.len(),
    decreases v.len(),
{
    if v.len() > 0 {
        lemma_count_true_bound(v.drop_last());
    }
}

/// Every assigned condition owns the component of its edge, and every owned
/// component belongs to the condition assigned through it.
closed spec fn assignment_ok(edges: Seq<Vec<Edge>>, owner: Seq<Option<usize>>, assigned: Seq<Option<usize>>) -> bool {
    &&& assigned.len() == edges.len()
    &&& forall|c: int|
        0 <= c < assigned.len() && (#[trigger] assigned[c]) is Some ==> {
            &&& assigned[c].unwrap() < edges[c]@.len()
            &&& edges[c]@[assigned[c].unwrap() as int].label < owner.len()
            &&& owner[edges[c]@[assigned[c].unwrap() as int].label as int] == Some(c as usize)
        }
    &&& forall|k: int|
        0 <= k < owner.len() && (#[trigger] owner[k]) is Some ==> {
            &&& owner[k].unwrap() < assigned.len()
            &&& assigned[owner[k].unwrap() as int] is Some
            &&& edges[owner[k].unwrap() as int]@[assigned[owner[k].unwrap() as int].unwrap() as int].label == k
        }
}

closed spec fn labels_bounded(edges: Seq<Vec<Edge>>, p: int) -> bool {
    forall|c: int, e: int| 0 <= c < edges.len() && 0 <= e < edges[c]@.len() ==> (#[trigger] edges[c]@[e]).label < p
}

/// Condition `c` takes the component of its edge `e`, giving up the one it held.
fn take_component(c: usize, e: usize, edges: &Vec<Vec<Edge>>, owner: &mut Vec<Option<usize>>, assigned: &mut Vec<Option<usize>>)
    requires
        c < edges@.len(),
        e < edges@[c as int]@.len(),
        labels_bounded(edges@, old(owner)@.len() as int),
        assignment_ok(edges@, old(owner)@, old(assigned)@),
        ({
            let l = edges@[c as int]@[e as int].label as int;
            old(owner)@[l] is None || old(owner)@[l] == Some(c)
        }),
    ensures
        final(owner)@.len() == old(owner)@.len(),
        assignment_ok(edges@, final(owner)@, final(assigned)@),
        final(assigned)@ == old(assigned)@.update(c as int, Some(e)),
        match old(assigned)@[c as int] {
            Some(p) => edges@[c as int]@[p as int].label != edges@[c as int]@[e as int].label
                ==> final(owner)@[edges@[c as int]@[p as int].label as int] is None,
            None => true,
        },
{
    let _count = edges.len();
    let l = edges[c][e].label;
    match assigned[c] {
        Some(previous) => {
            let pl = edges[c][previous].label;
            if pl != l {
                owner.set(pl, None);
            }
        },
        None => {},
    }
    owner.set(l, Some(c));
    assigned.set(c, Some(e));
    proof {
        let o = owner@;
        let a = assigned@;
        assert forall|x: int| 0 <= x < a.len() && (#[trigger] a[x]) is Some implies {
            &&& a[x].unwrap() < edges@[x]@.len()
            &&& edges@[x]@[a[x].unwrap() as int].label < o.len()
            &&& o[edges@[x]@[a[x].unwrap() as int].label as int] == Some(x as usize)
        } by {
            if x != c {
                assert(a[x] == old(assigned)@[x]);
                let lx = edges@[x]@[a[x].unwrap() as int].label as int;
                assert(old(owner)@[lx] == Some(x as usize));
                assert(x < _count);
                assert(x as usize != c);
                assert(lx != l as int);
                match old(assigned)@[c as int] {
                    Some(previous) => {
                        assert(old(owner)@[edges@[c as int]@[previous as int].label as int] == Some(c));
                        assert(lx != edges@[c as int]@[previous as int].label as int);
                    },
                    None => {},
                }
                assert(o[lx] == old(owner)@[lx]);
            } else {
                assert(a[x] == Some(e));
                assert(o[l as int] == Some(c));
            }
        }
        assert forall|k: int| 0 <= k < o.len() && (#[trigger] o[k]) is Some implies {
            &&& o[k].unwrap() < a.len()
            &&& a[o[k].unwrap() as int] is Some
            &&& edges@[o[k].unwrap() as int]@[a[o[k].unwrap() as int].unwrap() as int].label == k
        } by {
            if k != l {
                assert(o[k] == old(owner)@[k]);
                if old(owner)@[k].unwrap() == c {
                    assert(edges@[c as int]@[old(assigned)@[c as int].unwrap() as int].label == k);
                }
            }
        }
    }
}

/// Tries to give condition `c` a component, moving other conditions along
/// augmenting paths; each condition is visited once per search. On success
/// `c` holds a new component and gives up the one it held; on failure
/// nothing is reassigned. A condition not yet visited with an edge to a
/// free component always succeeds, and conditions visited before the call
/// keep what they hold.
fn try_assign(
    c: usize,
    edges: &Vec<Vec<Edge>>,
    owner: &mut Vec<Option<usize>>,
    assigned: &mut Vec<Option<usize>>,
    visited: &mut Vec<bool>,
    seen: &mut usize,
) -> (found: bool)
    requires
        c < edges@.len(),
        old(visited)@.len() == edges@.len(),
        *old(seen) == count_true(old(visited)@),
        labels_bounded(edges@, old(owner)@.len() as int),
        assignment_ok(edges@, old(owner)@, old(assigned)@),
    ensures
        final(owner)@.len() == old(owner)@.len(),
        final(visited)@.len() == old(visited)@.len(),
        *final(seen) == count_true(final(visited)@),
        *final(seen) >= *old(seen),
        assignment_ok(edges@, final(owner)@, final(assigned)@),
        forall|k: int| 0 <= k < old(visited)@.len() && old(visited)@[k] ==> #[trigger] final(visited)@[k],
        forall|k: int|
            0 <= k < old(visited)@.len() && #[trigger] old(visited)@[k] ==> final(assigned)@[k] == old(assigned)@[k],
        found ==> final(assigned)@[c as int] is Some && final(assigned)@[c as int] != old(assigned)@[c as int],
        found ==> match old(assigned)@[c as int] {
            Some(p) => final(owner)@[edges@[c as int]@[p as int].label as int] is None,
            None => true,
        },
        !found ==> final(owner)@ == old(owner)@ && final(assigned)@ == old(assigned)@,
        !old(visited)@[c as int] && (exists|j: int|
            0 <= j < edges@[c as int]@.len() && (#[trigger] old(owner)@[edges@[c as int]@[j].label as int]) is None)
            ==> found,
    decreases edges@.len() - *old(seen),
{
    if visited[c] {
        return false;
    }
    proof {
        lemma_count_true_mark(visited@, c as int);
    }
    let _size = visited.len();
    visited.set(c, true);
    *seen = *seen + 1;
    let n = edges[c].len();
    let mut e: usize = 0;
    while e < n
        invariant
            c < edges@.len(),
            n == edges@[c as int]@.len(),
            e <= n,
            visited@.len() == edges@.len(),
            old(visited)@.len() == edges@.len(),
            !old(visited)@[c as int],
            visited@[c as int],
            forall|k: int| 0 <= k < old(visited)@.len() && old(visited)@[k] ==> #[trigger] visited@[k],
            *seen == count_true(visited@),
            *seen >= *old(seen) + 1,
            *seen <= edges@.len(),
            owner@ == old(owner)@,
            assigned@ == old(assigned)@,
            labels_bounded(edges@, owner@.len() as int),
            assignment_ok(edges@, owner@, assigned@),
            forall|j: int| 0 <= j < e ==> (#[trigger] old(owner)@[edges@[c as int]@[j].label as int]) is Some,
        decreases n - e,
    {
        let l = edges[c][e].label;
        assert(edges@[c as int]@[e as int].label < owner@.len());
        match owner[l] {
            None => {
                proof {
                    if let Some(p) = old(assigned)@[c as int] {
                        assert(old(owner)@[edges@[c as int]@[p as int].label as int] == Some(c));
                    }
                }
                take_component(c, e, edges, owner, assigned);
                return true;
            },
            Some(previous) => {
                if previous != c {
                    proof {
                        lemma_count_true_bound(visited@);
                        assert(assigned@[previous as int] is Some);
                    }
                    let ghost mid_visited = visited@;
                    if try_assign(previous, edges, owner, assigned, visited, seen) {
                        let now = owner[l];
                        proof {
                            assert(mid_visited[c as int]);
                            assert(assigned@[c as int] == old(assigned)@[c as int]);
                            assert(edges@[previous as int]@[old(assigned)@[previous as int].unwrap() as int].label == l);
                            assert(now is None);
                            if let Some(p) = old(assigned)@[c as int] {
                                assert(old(owner)@[edges@[c as int]@[p as int].label as int] == Some(c));
                                assert(edges@[c as int]@[p as int].label != l);
                            }
                        }
                        if now.is_none() || now == Some(c) {
                            let ghost before = assigned@;
                            take_component(c, e, edges, owner, assigned);
                            proof {
                                assert forall|k: int|
                                    0 <= k < old(visited)@.len() && #[trigger] old(visited)@[k] implies assigned@[k]
                                        == old(assigned)@[k] by {
                                    assert(mid_visited[k]);
                                    assert(k != c);
                                }
                                if let Some(p) = old(assigned)@[c as int] {
                                    assert(before[c as int] == Some(p));
                                    assert(p != e);
                                }
                            }
                            return true;
                        }
                    }
                }
            },
        }
        proof {
            lemma_count_true_bound(visited@);
        }
        e = e + 1;
    }
    false
}

/// Condition `a` is given a modifier before `b`: more constrained slots,
/// then more specific constraints, then more words, then earlier in the
/// definition.
spec fn goes_before(a: CompiledCondition, b: CompiledCondition) -> bool {
    if a.constrained_slot_count != b.constrained_slot_count {
        a.constrained_slot_count > b.constrained_slot_count
    } else if a.constraint_specificity != b.constraint_specificity {
        a.constraint_specificity > b.constraint_specificity
    } else if a.lexical_token_count != b.lexical_token_count {
        a.lexical_token_count > b.lexical_token_count
    } else {
        a.original_index < b.original_index
    }
}

fn precedes(a: &CompiledCondition, b: &CompiledCondition) -> (r: bool)
    ensures
        r == goes_before(*a, *b),
{
    if a.constrained_slot_count != b.constrained_slot_count {
        a.constrained_slot_count > b.constrained_slot_count
    } else if a.constraint_specificity != b.constraint_specificity {
        a.constraint_specificity > b.constraint_specificity
    } else if a.lexical_token_count != b.lexical_token_count {
        a.lexical_token_count > b.lexical_token_count
    } else {
        a.original_index < b.original_index
    }
}

/// The order conditions are given modifiers in: most constrained slots first,
/// then most specific constraints, then most words, then definition order.
fn condition_order(conds: &Vec<CompiledCondition>) -> (order: Vec<usize>)
    ensures
        order@.len() == conds@.len(),
        forall|k: int| 0 <= k < order@.len() ==> #[trigger] order@[k] < conds@.len(),
{
    let n = conds.len();
    let mut order: Vec<usize> = Vec::new();
    let mut i: usize = 0;
    while i < n
        invariant
            n == conds@.len(),
            i <= n,
            order@.len() == i,
            forall|k: int| 0 <= k < order@.len() ==> #[trigger] order@[k] < n,
        decreases n - i,
    {
        let m = order.len();
        let mut p: usize = 0;
        while p < m && !precedes(&conds[i], &conds[order[p]])
            invariant
                i < n,
                m == order@.len(),
                p <= m,
                forall|k: int| 0 <= k < order@.len() ==> #[trigger] order@[k] < n,
                n == conds@.len(),
            decreases m - p,
        {
            p = p + 1;
        }
        order.insert(p, i);
        assert forall|k: int| 0 <= k < order@.len() implies #[trigger] order@[k] < n by {
            if k != p {
                assert(order@[k] == if k < p {
                    order@.remove(p as int)[k]
                } else {
                    order@.remove(p as int)[k - 1]
                });
            }
        }
        i = i + 1;
    }
    order
}

proof fn lemma_assignment_distinct(edges: Seq<Vec<Edge>>, owner: Seq<Option<usize>>, assigned: Seq<Option<usize>>, a: int, b: int)
    requires
        assignment_ok(edges, owner, assigned),
        0 <= a < assigned.len(),
        0 <= b < assigned.len(),
        a != b,
        assigned.len() <= usize::MAX,
        assigned[a] is Some,
        assigned[b] is Some,
    ensures
        edges[a]@[assigned[a].unwrap() as int].label != edges[b]@[assigned[b].unwrap() as int].label,
{
    assert(owner[edges[a]@[assigned[a].unwrap() as int].label as int] == Some(a as usize));
    assert(owner[edges[b]@[assigned[b].unwrap() as int].label as int] == Some(b as usize));
}

/// How many entries are filled in.
pub open spec fn count_some<T>(s: Seq<Option<T>>) -> nat
    decreases s.len(),
{
    if s.len() == 0 {
        0
    } else {
        count_some(s.drop_last()) + if s.last() is Some {
            1nat
        } else {
            0nat
        }
    }
}

spec fn some_set<T>(s: Seq<Option<T>>) -> Set<int> {
    Set::new(|k: int| 0 <= k < s.len() && s[k] is Some)
}

proof fn lemma_some_set<T>(s: Seq<Option<T>>)
    ensures
        some_set(s).finite(),
        some_set(s).len() == count_some(s),
    decreases s.len(),
{
    if s.len() == 0 {
        assert(some_set(s) =~= Set::empty());
    } else {
        let t = s.drop_last();
        lemma_some_set(t);
        let last = s.len() - 1;
        if s.last() is Some {
            assert(some_set(s) =~= some_set(t).insert(last));
            assert(!some_set(t).contains(last));
        } else {
            assert(some_set(s) =~= some_set(t));
        }
    }
}

proof fn lemma_count_some_update<T>(s: Seq<Option<T>>, c: int, v: T)
    requires
        0 <= c < s.len(),
    ensures
        count_some(s.update(c, Some(v))) == count_some(s) + if s[c] is Some {
            0int
        } else {
            1int
        },
    decreases s.len(),
{
    let u = s.update(c, Some(v));
    if c == s.len() - 1 {
        assert(u.drop_last() =~= s.drop_last());
    } else {
        assert(u.drop_last() =~= s.drop_last().update(c, Some(v)));
        lemma_count_some_update(s.drop_last(), c, v);
    }
}

/// `tau` gives conditions distinct components, each through one of the
/// condition's edges.
closed spec fn label_matching(edges: Seq<Vec<Edge>>, tau: Seq<Option<usize>>) -> bool {
    &&& tau.len() == edges.len()
    &&& forall|k: int|
        0 <= k < tau.len() && (#[trigger] tau[k]) is Some ==> exists|e: int|
            0 <= e < edges[k]@.len() && (#[trigger] edges[k]@[e]).label == tau[k].unwrap()
    &&& forall|a: int, b: int|
        0 <= a < tau.len() && 0 <= b < tau.len() && a != b && (#[trigger] tau[a]) is Some && (#[trigger] tau[b]) is Some
            ==> tau[a] != tau[b]
}

/// No assignment gives out more components than this one.
closed spec fn maximum(edges: Seq<Vec<Edge>>, assigned: Seq<Option<usize>>) -> bool {
    forall|tau: Seq<Option<usize>>| #[trigger] label_matching(edges, tau) ==> count_some(tau) <= count_some(assigned)
}

/// A closed set of conditions and components reached by alternating paths
/// from every condition without a component, containing no free component.
closed spec fn certificate(
    edges: Seq<Vec<Edge>>,
    owner: Seq<Option<usize>>,
    assigned: Seq<Option<usize>>,
    rc: Seq<bool>,
    rl: Seq<bool>,
) -> bool {
    &&& rc.len() == edges.len()
    &&& rl.len() == owner.len()
    &&& forall|c: int| 0 <= c < assigned.len() && (#[trigger] assigned[c]) is None ==> rc[c]
    &&& forall|c: int, e: int|
        0 <= c < rc.len() && rc[c] && 0 <= e < edges[c]@.len() ==> rl[(#[trigger] edges[c]@[e]).label as int]
    &&& forall|l: int| 0 <= l < rl.len() && (#[trigger] rl[l]) ==> owner[l] is Some && rc[owner[l].unwrap() as int]
}

proof fn lemma_certificate_maximum(
    edges: Seq<Vec<Edge>>,
    owner: Seq<Option<usize>>,
    assigned: Seq<Option<usize>>,
    rc: Seq<bool>,
    rl: Seq<bool>,
)
    requires
        assignment_ok(edges, owner, assigned),
        labels_bounded(edges, owner.len() as int),
        certificate(edges, owner, assigned, rc, rl),
        assigned.len() <= usize::MAX,
    ensures
        maximum(edges, assigned),
{
    assert forall|tau: Seq<Option<usize>>| #[trigger] label_matching(edges, tau) implies count_some(tau) <= count_some(assigned) by {
        let a = some_set(tau);
        let b = some_set(assigned);
        lemma_some_set(tau);
        lemma_some_set(assigned);
        let f = |k: int|
            if rc[k] {
                owner[tau[k].unwrap() as int].unwrap() as int
            } else {
                k
            };
        assert forall|k: int| a.contains(k) implies b.contains(f(k)) && (rc[k] ==> rc[f(k)]) by {
            if rc[k] {
                let e = choose|e: int| 0 <= e < edges[k]@.len() && (#[trigger] edges[k]@[e]).label == tau[k].unwrap();
                assert(rl[edges[k]@[e].label as int]);
                let c2 = owner[tau[k].unwrap() as int].unwrap() as int;
                assert(owner[tau[k].unwrap() as int] is Some);
            } else {
                assert(assigned[k] is Some);
            }
        }
        assert forall|x: int, y: int| a.contains(x) && a.contains(y) && #[trigger] f(x) == #[trigger] f(y) implies x == y by {
            if x != y {
                if rc[x] && rc[y] {
                    let lx = tau[x].unwrap() as int;
                    let ly = tau[y].unwrap() as int;
                    let ex = choose|e: int| 0 <= e < edges[x]@.len() && (#[trigger] edges[x]@[e]).label == tau[x].unwrap();
                    let ey = choose|e: int| 0 <= e < edges[y]@.len() && (#[trigger] edges[y]@[e]).label == tau[y].unwrap();
                    assert(rl[edges[x]@[ex].label as int]);
                    assert(rl[edges[y]@[ey].label as int]);
                    assert(owner[lx] is Some);
                    assert(owner[ly] is Some);
                    let c = owner[lx].unwrap() as int;
                    assert(edges[c]@[assigned[c].unwrap() as int].label == lx);
                    assert(edges[c]@[assigned[c].unwrap() as int].label == ly);
                    assert(tau[x] != tau[y]);
                } else if rc[x] && !rc[y] {
                    assert(rc[f(x)]);
                } else if !rc[x] && rc[y] {
                    assert(rc[f(y)]);
                }
            }
        }
        assert(vstd::relations::injective_on(f, a));
        let image = a.map(f);
        assert(a.finite()) by {
            vstd::set_lib::lemma_int_range(0, tau.len() as int);
            assert(a.subset_of(vstd::set_lib::set_int_range(0, tau.len() as int)));
            vstd::set_lib::lemma_len_subset(a, vstd::set_lib::set_int_range(0, tau.len() as int));
        }
        vstd::set_lib::lemma_map_size(a, image, f);
        assert(image.subset_of(b)) by {
            assert forall|y: int| image.contains(y) implies b.contains(y) by {
                let x = choose|x: int| a.contains(x) && f(x) == y;
            }
        }
        vstd::set_lib::lemma_len_subset(image, b);
    }
}

proof fn lemma_count_some_bound<T>(s: Seq<Option<T>>)
    ensures
        count_some(s) <= s.len(),
    decreases s.len(),
{
    if s.len() > 0 {
        lemma_count_some_bound(s.drop_last());
    }
}

/// What an alternating search from the conditions without a component has
/// recorded: each reached component, the condition and edge it was reached
/// through, and the depth of every reached condition and component.
closed spec fn search_ok(
    edges: Seq<Vec<Edge>>,
    p: int,
    assigned: Seq<Option<usize>>,
    rc: Seq<bool>,
    rl: Seq<bool>,
    via_c: Seq<usize>,
    via_e: Seq<usize>,
    dc: Seq<int>,
    dl: Seq<int>,
) -> bool {
    &&& rc.len() == edges.len()
    &&& dc.len() == edges.len()
    &&& assigned.len() == edges.len()
    &&& rl.len() == p
    &&& via_c.len() == p
    &&& via_e.len() == p
    &&& dl.len() == p
    &&& forall|c: int|
        0 <= c < rc.len() && #[trigger] rc[c] ==> dc[c] >= 0 && match assigned[c] {
            None => true,
            Some(e) => 0 <= edges[c]@[e as int].label < p && rl[edges[c]@[e as int].label as int] && dc[c] == dl[edges[c]@[e as int].label as int] + 1,
        }
    &&& forall|l: int|
        0 <= l < rl.len() && #[trigger] rl[l] ==> {
            &&& via_c[l] < rc.len()
            &&& rc[via_c[l] as int]
            &&& via_e[l] < edges[via_c[l] as int]@.len()
            &&& edges[via_c[l] as int]@[via_e[l] as int].label == l
            &&& dl[l] == dc[via_c[l] as int]
        }
}

/// Searches alternating paths from every condition without a component.
/// Returns a free component it reached, or none when the reached part is
/// closed.
fn search(edges: &Vec<Vec<Edge>>, owner: &Vec<Option<usize>>, assigned: &Vec<Option<usize>>) -> (r: (
    Option<usize>,
    Vec<bool>,
    Vec<bool>,
    Vec<usize>,
    Vec<usize>,
    Ghost<Seq<int>>,
    Ghost<Seq<int>>,
))
    requires
        assignment_ok(edges@, owner@, assigned@),
        labels_bounded(edges@, owner@.len() as int),
    ensures
        search_ok(edges@, owner@.len() as int, assigned@, r.1@, r.2@, r.3@, r.4@, r.5@, r.6@),
        match r.0 {
            Some(l) => l < owner@.len() && r.2@[l as int] && owner@[l as int] is None,
            None => certificate(edges@, owner@, assigned@, r.1@, r.2@),
        },
{
    let n = edges.len();
    let p = owner.len();
    let mut rc: Vec<bool> = Vec::new();
    let mut queue: Vec<usize> = Vec::new();
    let mut k: usize = 0;
    while k < n
        invariant
            n == edges@.len(),
            n == assigned@.len(),
            k <= n,
            rc@.len() == k,
            forall|c: int| 0 <= c < k ==> #[trigger] rc@[c] == (assigned@[c] is None),
            forall|i: int| 0 <= i < queue@.len() ==> #[trigger] queue@[i] < k && rc@[queue@[i] as int],
            forall|c: int| 0 <= c < k && #[trigger] rc@[c] ==> exists|i: int| 0 <= i < queue@.len() && queue@[i] == c,
        decreases n - k,
    {
        let free = assigned[k].is_none();
        let ghost old_rc = rc@;
        let ghost old_queue = queue@;
        rc.push(free);
        if free {
            queue.push(k);
            assert(queue@[queue@.len() - 1] == k);
        }
        assert forall|c: int| 0 <= c < k + 1 && #[trigger] rc@[c] implies exists|i: int| 0 <= i < queue@.len() && queue@[i] == c by {
            if c < k {
                assert(old_rc[c]);
                let i = choose|i: int| 0 <= i < old_queue.len() && old_queue[i] == c;
                assert(queue@[i] == old_queue[i]);
            } else {
                assert(queue@[queue@.len() - 1] == k);
            }
        }
        k = k + 1;
    }
    let mut rl: Vec<bool> = Vec::new();
    let mut via_c: Vec<usize> = Vec::new();
    let mut via_e: Vec<usize> = Vec::new();
    let mut k: usize = 0;
    while k < p
        invariant
            k <= p,
            rl@.len() == k,
            via_c@.len() == k,
            via_e@.len() == k,
            forall|l: int| 0 <= l < k ==> !(#[trigger] rl@[l]),
        decreases p - k,
    {
        rl.push(false);
        via_c.push(0);
        via_e.push(0);
        k = k + 1;
    }
    let ghost mut dc: Seq<int> = Seq::new(n as nat, |i: int| 0int);
    let ghost mut dl: Seq<int> = Seq::new(p as nat, |i: int| 0int);
    let mut head: usize = 0;
    while head < queue.len()
        invariant
            n == edges@.len(),
            p == owner@.len(),
            assignment_ok(edges@, owner@, assigned@),
            labels_bounded(edges@, p as int),
            search_ok(edges@, p as int, assigned@, rc@, rl@, via_c@, via_e@, dc, dl),
            head <= queue@.len(),
            forall|i: int| 0 <= i < queue@.len() ==> #[trigger] queue@[i] < n && rc@[queue@[i] as int],
            forall|c: int| 0 <= c < n && #[trigger] rc@[c] ==> exists|i: int| 0 <= i < queue@.len() && queue@[i] == c,
            forall|i: int, e: int|
                0 <= i < head && 0 <= e < edges@[queue@[i] as int]@.len() ==> rl@[(#[trigger] edges@[queue@[i] as int]@[e]).label as int],
            forall|l: int| 0 <= l < p && #[trigger] rl@[l] ==> owner@[l] is Some && rc@[owner@[l].unwrap() as int],
            forall|c: int| 0 <= c < n && (#[trigger] assigned@[c]) is None ==> rc@[c],
        decreases 2 * (n - count_true(rc@)) + queue@.len() - head,
    {
        proof {
            lemma_count_true_bound(rc@);
        }
        let c = queue[head];
        let m = edges[c].len();
        let ghost before = 2 * (n - count_true(rc@)) + queue@.len();
        let mut e: usize = 0;
        while e < m
            invariant
                n == edges@.len(),
                p == owner@.len(),
                assignment_ok(edges@, owner@, assigned@),
                labels_bounded(edges@, p as int),
                search_ok(edges@, p as int, assigned@, rc@, rl@, via_c@, via_e@, dc, dl),
                head < queue@.len(),
                c == queue@[head as int],
                m == edges@[c as int]@.len(),
                e <= m,
                forall|i: int| 0 <= i < queue@.len() ==> #[trigger] queue@[i] < n && rc@[queue@[i] as int],
                forall|x: int| 0 <= x < n && #[trigger] rc@[x] ==> exists|i: int| 0 <= i < queue@.len() && queue@[i] == x,
                forall|i: int, f: int|
                    0 <= i < head && 0 <= f < edges@[queue@[i] as int]@.len() ==> rl@[(#[trigger] edges@[queue@[i] as int]@[f]).label as int],
                forall|f: int| 0 <= f < e ==> rl@[(#[trigger] edges@[c as int]@[f]).label as int],
                forall|l: int| 0 <= l < p && #[trigger] rl@[l] ==> owner@[l] is Some && rc@[owner@[l].unwrap() as int],
                forall|x: int| 0 <= x < n && (#[trigger] assigned@[x]) is None ==> rc@[x],
                2 * (n - count_true(rc@)) + queue@.len() <= before,
                count_true(rc@) <= n,
            decreases m - e,
        {
            let l = edges[c][e].label;
            assert(edges@[c as int]@[e as int].label < p);
            if !rl[l] {
                rl.set(l, true);
                via_c.set(l, c);
                via_e.set(l, e);
                proof {
                    dl = dl.update(l as int, dc[c as int]);
                }
                match owner[l] {
                    None => {
                        return (Some(l), rc, rl, via_c, via_e, Ghost(dc), Ghost(dl));
                    },
                    Some(c2) => {
                        assert(assigned@[c2 as int] is Some);
                        if !rc[c2] {
                            proof {
                                lemma_count_true_mark(rc@, c2 as int);
                            }
                            rc.set(c2, true);
                            proof {
                                dc = dc.update(c2 as int, dl[l as int] + 1);
                                lemma_count_true_bound(rc@);
                            }
                            let ghost old_queue = queue@;
                            queue.push(c2);
                            assert(queue@[queue@.len() - 1] == c2);
                            assert forall|x: int| 0 <= x < n && #[trigger] rc@[x] implies exists|i: int|
                                0 <= i < queue@.len() && queue@[i] == x by {
                                if x != c2 {
                                    let i = choose|i: int| 0 <= i < old_queue.len() && old_queue[i] == x;
                                    assert(queue@[i] == old_queue[i]);
                                } else {
                                    assert(queue@[queue@.len() - 1] == c2);
                                }
                            }
                        }
                    },
                }
            }
            e = e + 1;
        }
        head = head + 1;
    }
    proof {
        assert forall|c: int, e: int|
            0 <= c < rc@.len() && rc@[c] && 0 <= e < edges@[c]@.len() implies rl@[(#[trigger] edges@[c]@[e]).label as int] by {
            let i = choose|i: int| 0 <= i < queue@.len() && queue@[i] == c;
            assert(rl@[edges@[queue@[i] as int]@[e].label as int]);
        }
    }
    (None, rc, rl, via_c, via_e, Ghost(dc), Ghost(dl))
}

/// Gives the free component `l` to the condition it was reached through,
/// which hands its own component back along the search, until a condition
/// that had none takes one: one more condition holds a component.
fn augment(
    l: usize,
    edges: &Vec<Vec<Edge>>,
    owner: &mut Vec<Option<usize>>,
    assigned: &mut Vec<Option<usize>>,
    via_c: &Vec<usize>,
    via_e: &Vec<usize>,
    rc: Ghost<Seq<bool>>,
    rl: Ghost<Seq<bool>>,
    dc: Ghost<Seq<int>>,
    dl: Ghost<Seq<int>>,
    orig: Ghost<Seq<Option<usize>>>,
)
    requires
        search_ok(edges@, old(owner)@.len() as int, orig@, rc@, rl@, via_c@, via_e@, dc@, dl@),
        l < old(owner)@.len(),
        rl@[l as int],
        old(owner)@[l as int] is None,
        assignment_ok(edges@, old(owner)@, old(assigned)@),
        labels_bounded(edges@, old(owner)@.len() as int),
        old(assigned)@.len() == orig@.len(),
        forall|c: int| 0 <= c < orig@.len() && rc@[c] && dc@[c] <= dl@[l as int] ==> #[trigger] old(assigned)@[c] == orig@[c],
    ensures
        final(owner)@.len() == old(owner)@.len(),
        assignment_ok(edges@, final(owner)@, final(assigned)@),
        count_some(final(assigned)@) == count_some(old(assigned)@) + 1,
    decreases dl@[l as int],
{
    let c = via_c[l];
    let e = via_e[l];
    assert(rc@[c as int]);
    assert(old(assigned)@[c as int] == orig@[c as int]);
    let prev = assigned[c];
    let ghost before = assigned@;
    let ghost owner_before = owner@;
    take_component(c, e, edges, owner, assigned);
    proof {
        lemma_count_some_update(before, c as int, e);
    }
    match prev {
        None => {},
        Some(pe) => {
            let l2 = edges[c][pe].label;
            assert(owner_before[l2 as int] == Some(c));
            assert(l2 != l);
            assert(dl@[l2 as int] >= 0) by {
                assert(rl@[l2 as int]);
                assert(rc@[via_c@[l2 as int] as int]);
            }
            assert(owner@[l2 as int] is None) by {
                if owner@[l2 as int] is Some {
                    let x = owner@[l2 as int].unwrap() as int;
                    assert(assigned@[x] is Some);
                    if x == c as int {
                        assert(edges@[c as int]@[e as int].label == l);
                    } else {
                        assert(assigned@[x] == before[x]);
                        assert(owner_before[edges@[x]@[before[x].unwrap() as int].label as int] == Some(x as usize));
                    }
                }
            }
            assert forall|x: int| 0 <= x < orig@.len() && rc@[x] && dc@[x] <= dl@[l2 as int] implies #[trigger] assigned@[x] == orig@[x] by {
                assert(x != c as int);
                assert(assigned@[x] == before[x]);
            }
            augment(l2, edges, owner, assigned, via_c, via_e, rc, rl, dc, dl, orig);
        },
    }
}

/// Completes an assignment to a maximum one.
fn maximize(edges: &Vec<Vec<Edge>>, owner: &mut Vec<Option<usize>>, assigned: &mut Vec<Option<usize>>)
    requires
        assignment_ok(edges@, old(owner)@, old(assigned)@),
        labels_bounded(edges@, old(owner)@.len() as int),
        edges@.len() <= usize::MAX,
    ensures
        final(owner)@.len() == old(owner)@.len(),
        assignment_ok(edges@, final(owner)@, final(assigned)@),
        maximum(edges@, final(assigned)@),
{
    let n = edges.len();
    let ghost p = owner@.len();
    loop
        invariant
            n == edges@.len(),
            owner@.len() == p,
            p == old(owner)@.len(),
            assignment_ok(edges@, owner@, assigned@),
            labels_bounded(edges@, p as int),
        decreases n - count_some(assigned@),
    {
        proof {
            lemma_count_some_bound(assigned@);
        }
        let (found, rc, rl, via_c, via_e, dc, dl) = search(edges, owner, assigned);
        match found {
            None => {
                proof {
                    lemma_certificate_maximum(edges@, owner@, assigned@, rc@, rl@);
                }
                return;
            },
            Some(l) => {
                let ghost orig = assigned@;
                augment(l, edges, owner, assigned, &via_c, &via_e, Ghost(rc@), Ghost(rl@), dc, dl, Ghost(orig));
                proof {
                    lemma_count_some_bound(assigned@);
                }
            },
        }
    }
}

/// Gives components to conditions in `order`, along augmenting paths.
fn assign_all(edges: &Vec<Vec<Edge>>, order: &Vec<usize>, p: usize) -> (r: (Vec<Option<usize>>, Vec<Option<usize>>))
    requires
        labels_bounded(edges@, p as int),
        forall|k: int| 0 <= k < order@.len() ==> #[trigger] order@[k] < edges@.len(),
    ensures
        assignment_ok(edges@, r.1@, r.0@),
        r.1@.len() == p,
        maximum(edges@, r.0@),
{
    let n = edges.len();
    let mut owner: Vec<Option<usize>> = Vec::new();
    let mut k: usize = 0;
    while k < p
        invariant
            k <= p,
            owner@.len() == k,
            forall|x: int| 0 <= x < k ==> #[trigger] owner@[x] is None,
        decreases p - k,
    {
        owner.push(None);
        k = k + 1;
    }
    let mut assigned: Vec<Option<usize>> = Vec::new();
    let mut k: usize = 0;
    while k < n
        invariant
            n == edges@.len(),
            k <= n,
            assigned@.len() == k,
            forall|x: int| 0 <= x < k ==> #[trigger] assigned@[x] is None,
        decreases n - k,
    {
        assigned.push(None);
        k = k + 1;
    }
    assert(assignment_ok(edges@, owner@, assigned@));
    let m = order.len();
    let mut i: usize = 0;
    while i < m
        invariant
            m == order@.len(),
            n == edges@.len(),
            i <= m,
            owner@.len() == p,
            labels_bounded(edges@, p as int),
            forall|x: int| 0 <= x < order@.len() ==> #[trigger] order@[x] < edges@.len(),
            assignment_ok(edges@, owner@, assigned@),
        decreases m - i,
    {
        let mut visited: Vec<bool> = Vec::new();
        let mut k: usize = 0;
        while k < n
            invariant
                k <= n,
                visited@.len() == k,
                forall|x: int| 0 <= x < k ==> !(#[trigger] visited@[x]),
            decreases n - k,
        {
            visited.push(false);
            k = k + 1;
        }
        proof {
            lemma_count_none(visited@);
        }
        let mut seen: usize = 0;
        let _ = try_assign(order[i], edges, &mut owner, &mut assigned, &mut visited, &mut seen);
        i = i + 1;
    }
    maximize(edges, &mut owner, &mut assigned);
    (assigned, owner)
}

proof fn lemma_count_none(v: Seq<bool>)
    requires
        forall|x: int| 0 <= x < v.len() ==> !(#[trigger] v[x]),
    ensures
        count_true(v) == 0,
    decreases v.len(),
{
    if v.len() > 0 {
        lemma_count_none(v.drop_last());
    }
}

// ---------------------------------------------------------------------------
// What an evaluation reports
// ---------------------------------------------------------------------------

/// The observation that satisfied a condition reads as its template: lines
/// that fit the template (with the values those lines display), or an
/// assisted reading whose verified target is the template.
pub open spec fn match_evidence(o: ModifierObservation, c: ConditionView, lines: Seq<Seq<char>>, span: int) -> bool {
    &&& o.physical_line_count <= span
    &&& if o.start_line_index < lines.len() {
        crate::matching::span_fits(
            shape_of(c.template),
            lines,
            o.start_line_index as int,
            o.physical_line_count as int,
            span,
        ) && o.original_text@ == crate::matching::plain_joined(
            lines.subrange(o.start_line_index as int, o.start_line_index + o.physical_line_count),
        ) && crate::matching::values_view(o.numeric_values@) == crate::matching::slot_values(
            crate::matching::lex(
                crate::matching::span_source(
                    lines,
                    o.start_line_index as int,
                    o.physical_line_count as int,
                ),
            ),
        )
    } else {
        o.canonical_text@ == display(shape_of(c.template))
    }
}

/// What is reported for enabled condition `j` (definition `c`).
pub open spec fn condition_result_ok(ce: ConditionEvaluation, c: ConditionView, j: int, lines: Seq<Seq<char>>, span: int) -> bool {
    &&& ce.condition_index == j
    &&& ce.name@ == (if trim(c.name).len() == 0 {
        c.template
    } else {
        c.name
    })
    &&& ce.template@ == c.template
    &&& ce.is_matched ==> {
        &&& ce.observation is Some
        &&& match_evidence(ce.observation.unwrap(), c, lines, span)
        &&& slots_ok(
            ce.numeric_slots@,
            padded(c.constraints, slot_count(shape_of(c.template))),
            ce.observation.unwrap().numeric_values@,
        )
        &&& all_satisfied(ce.numeric_slots@)
    }
}

/// No physical modifier satisfies two conditions: the observations of two
/// satisfied conditions share no line and no band.
pub open spec fn one_modifier_per_condition(conds: Seq<ConditionEvaluation>) -> bool {
    forall|a: int, b: int|
        0 <= a < conds.len() && 0 <= b < conds.len() && a != b && (#[trigger] conds[a]).is_matched
            && (#[trigger] conds[b]).is_matched ==> {
            let oa = conds[a].observation.unwrap();
            let ob = conds[b].observation.unwrap();
            &&& !ranges_overlap(
                oa.start_line_index as int,
                oa.physical_line_count as int,
                ob.start_line_index as int,
                ob.physical_line_count as int,
            )
            &&& !shares_band(
                crate::text::string_views(oa.physical_band_ids@),
                crate::text::string_views(ob.physical_band_ids@),
            )
        }
}

pub open spec fn matched_total(conds: Seq<ConditionEvaluation>) -> nat
    decreases conds.len(),
{
    if conds.len() == 0 {
        0
    } else {
        matched_total(conds.drop_last()) + if conds.last().is_matched {
            1nat
        } else {
            0nat
        }
    }
}

pub open spec fn default_group_name(i: int) -> Seq<char> {
    "Result "@ + ordinal(i)
}

/// What is reported for acceptable result `i` (definition `g`).
pub open spec fn group_result_ok(ge: ResultGroupEvaluation, i: int, g: GroupDefinitionView, lines: Seq<Seq<char>>, span: int) -> bool {
    let idx = enabled_indices(g.conditions);
    &&& ge.group_index == i
    &&& ge.name@ == (if trim(g.name).len() == 0 {
        default_group_name(i)
    } else {
        g.name
    })
    &&& ge.mode == g.mode
    &&& ge.required_count == required_for(g.mode, g.required_count, enabled_count(g.conditions))
    &&& ge.conditions@.len() == idx.len()
    &&& forall|k: int|
        0 <= k < idx.len() ==> condition_result_ok(
            #[trigger] ge.conditions@[k],
            g.conditions[idx[k]],
            idx[k],
            lines,
            span,
        )
    &&& ge.matched_count == matched_total(ge.conditions@)
    &&& ge.is_match == (idx.len() > 0 && ge.matched_count >= ge.required_count)
    &&& one_modifier_per_condition(ge.conditions@)
}

/// `m` is the first acceptable result that is met (`None`: none is).
pub open spec fn first_met(groups: Seq<ResultGroupEvaluation>, m: Option<usize>) -> bool {
    match m {
        Some(i) => i < groups.len() && groups[i as int].is_match && forall|j: int|
            0 <= j < i ==> !(#[trigger] groups[j]).is_match,
        None => forall|j: int| 0 <= j < groups.len() ==> !(#[trigger] groups[j]).is_match,
    }
}

/// What an evaluation of `lines` against a rule set compiled from `source`
/// (with line span `span`) reports: every acceptable result, each as its
/// definition asks, and the first one met as the match.
pub open spec fn evaluation_ok(source: DefinitionView, span: int, lines: Seq<Seq<char>>, r: RuleEvaluationResult) -> bool {
    &&& r.groups@.len() == source.groups.len()
    &&& forall|g: int|
        0 <= g < r.groups@.len() ==> group_result_ok(#[trigger] r.groups@[g], g, source.groups[g], lines, span)
    &&& first_met(r.groups@, r.matched_group_index)
    &&& r.is_match == (r.matched_group_index is Some)
}

/// What evaluating `lines` with their identities and assisted readings
/// gives: an acceptable evaluation that respects the bands, and an optimal
/// one while the lines and assisted readings can be counted.
pub open spec fn identity_evaluation(
    source: DefinitionView,
    span: int,
    lines: Seq<Seq<char>>,
    ids: Seq<PhysicalLineIdentity>,
    assisted: Seq<AssistedModifierObservation>,
    r: RuleEvaluationResult,
) -> bool {
    &&& evaluation_ok(source, span, lines, r)
    &&& identity_respected(r, lines.len() as int, ids, assisted)
    &&& lines.len() + assisted.len() <= usize::MAX ==> evaluation_optimal(source, span, lines, ids, assisted, r)
}

/// An evaluation reports one result per acceptable result, in order, each
/// with its own index; an acceptable result is met exactly when it has an
/// enabled condition and at least as many satisfied conditions as its mode
/// asks (one for `Any`, every enabled one for `All`, the chosen count for
/// `AtLeast`); the match is the first one met, and there is a match exactly
/// when one is met.
pub proof fn evaluation_reports_each_group(source: DefinitionView, span: int, lines: Seq<Seq<char>>, r: RuleEvaluationResult)
    requires
        evaluation_ok(source, span, lines, r),
    ensures
        r.groups@.len() == source.groups.len(),
        forall|i: int| 0 <= i < r.groups@.len() ==> (#[trigger] r.groups@[i]).group_index == i,
        forall|i: int|
            0 <= i < r.groups@.len() ==> (#[trigger] r.groups@[i]).is_match == (enabled_count(source.groups[i].conditions)
                > 0 && r.groups@[i].matched_count >= required_for(
                source.groups[i].mode,
                source.groups[i].required_count,
                enabled_count(source.groups[i].conditions),
            )),
        match r.matched_group_index {
            Some(m) => m < r.groups@.len() && r.groups@[m as int].is_match && forall|j: int|
                0 <= j < m ==> !(#[trigger] r.groups@[j]).is_match,
            None => forall|j: int| 0 <= j < r.groups@.len() ==> !(#[trigger] r.groups@[j]).is_match,
        },
        r.is_match == (r.matched_group_index is Some),
{
    assert forall|i: int| 0 <= i < r.groups@.len() implies (#[trigger] r.groups@[i]).is_match == (enabled_count(
        source.groups[i].conditions,
    ) > 0 && r.groups@[i].matched_count >= required_for(
        source.groups[i].mode,
        source.groups[i].required_count,
        enabled_count(source.groups[i].conditions),
    )) by {
        assert(group_result_ok(r.groups@[i], i, source.groups[i], lines, span));
        lemma_enabled_indices_bounds(source.groups[i].conditions);
    }
}

/// The value shown in slot `k` of a reading, when there is one.
pub open spec fn shown(values: Seq<Option<int>>, k: int) -> Option<int> {
    if 0 <= k < values.len() {
        values[k]
    } else {
        None
    }
}

/// An assisted reading the evaluation can use: its text, band and target are
/// not blank, nor is the canonical text of its target.
pub open spec fn assisted_usable(a: AssistedModifierObservation) -> bool {
    &&& trim(a.original_text@).len() > 0
    &&& trim(a.physical_band_id@).len() > 0
    &&& trim(a.canonical_target@).len() > 0
    &&& trim(display(shape_of(a.canonical_target@))).len() > 0
}

/// Positions of the usable assisted readings, in order.
pub open spec fn usable_indices(assisted: Seq<AssistedModifierObservation>) -> Seq<int>
    decreases assisted.len(),
{
    if assisted.len() == 0 {
        Seq::empty()
    } else if assisted_usable(assisted.last()) {
        usable_indices(assisted.drop_last()).push(assisted.len() - 1)
    } else {
        usable_indices(assisted.drop_last())
    }
}

/// Reading `r` is an assisted one: the usable assisted readings are placed,
/// one line each, after the `line_count` physical lines.
pub open spec fn is_assisted_reading(line_count: int, assisted: Seq<AssistedModifierObservation>, r: (int, int)) -> bool {
    &&& r.1 == 1
    &&& line_count <= r.0 < line_count + usable_indices(assisted).len()
}

/// The assisted reading placed at `r`.
pub open spec fn assisted_of(line_count: int, assisted: Seq<AssistedModifierObservation>, r: (int, int)) -> AssistedModifierObservation {
    assisted[usable_indices(assisted)[r.0 - line_count]]
}

/// The canonical text an assisted reading vouches for.
pub open spec fn assisted_target(a: AssistedModifierObservation) -> Seq<char> {
    trim(display(shape_of(a.canonical_target@)))
}

/// The values an assisted reading shows for a template: those of its text
/// when its slots are of the template's kinds, else none.
pub open spec fn assisted_values(
    shape: Seq<(crate::matching::AffixTokenKind, Seq<char>)>,
    a: AssistedModifierObservation,
) -> Seq<Option<int>> {
    if slot_kinds(shape) == slot_kinds(shape_of(a.original_text@)) {
        crate::matching::slot_values(crate::matching::lex(crate::matching::canonical_source(a.original_text@)))
    } else {
        Seq::new(slot_count(shape), |k: int| None)
    }
}

/// `x` is one of an assisted reading's bands, trimmed and not blank.
pub open spec fn assisted_band_in(a: AssistedModifierObservation, x: Seq<char>) -> bool {
    &&& x.len() > 0
    &&& (trim(a.physical_band_id@) == x || exists|i: int|
        0 <= i < a.related_physical_band_ids@.len() && trim(#[trigger] a.related_physical_band_ids@[i]@) == x)
}

/// Reading `r` (lines `start..start+count`, or an assisted reading placed
/// after the lines) reads as condition `c`'s template.
pub open spec fn reading_fits(
    c: ConditionView,
    lines: Seq<Seq<char>>,
    assisted: Seq<AssistedModifierObservation>,
    span: int,
    r: (int, int),
) -> bool {
    if r.0 < lines.len() {
        crate::matching::span_fits(shape_of(c.template), lines, r.0, r.1, span)
    } else {
        is_assisted_reading(lines.len() as int, assisted, r) && assisted_target(assisted_of(lines.len() as int, assisted, r))
            == display(shape_of(c.template))
    }
}

/// The values reading `r` shows in the slots of condition `c`'s template.
pub open spec fn reading_values(
    c: ConditionView,
    lines: Seq<Seq<char>>,
    assisted: Seq<AssistedModifierObservation>,
    r: (int, int),
) -> Seq<Option<int>> {
    if r.0 < lines.len() {
        crate::matching::slot_values(crate::matching::lex(crate::matching::span_source(lines, r.0, r.1)))
    } else {
        assisted_values(shape_of(c.template), assisted_of(lines.len() as int, assisted, r))
    }
}

/// Reading `r` reads as condition `c`'s template, and every slot's
/// constraint holds of the value the reading shows in it.
pub open spec fn reading_satisfies(
    c: ConditionView,
    lines: Seq<Seq<char>>,
    assisted: Seq<AssistedModifierObservation>,
    span: int,
    r: (int, int),
) -> bool {
    let n = slot_count(shape_of(c.template));
    &&& reading_fits(c, lines, assisted, span, r)
    &&& forall|k: int|
        0 <= k < n ==> constraint_holds(
            #[trigger] padded(c.constraints, n)[k],
            shown(reading_values(c, lines, assisted, r), k),
        )
}

/// `x` is one of reading `r`'s bands.
pub open spec fn reading_band_in(
    line_count: int,
    ids: Seq<PhysicalLineIdentity>,
    assisted: Seq<AssistedModifierObservation>,
    r: (int, int),
    x: Seq<char>,
) -> bool {
    if r.0 < line_count {
        line_band_in(ids, r.0, r.0 + r.1, x)
    } else {
        assisted_band_in(assisted_of(line_count, assisted, r), x)
    }
}

/// Two readings are parts of one physical modifier: their lines overlap or
/// they share a band.
pub open spec fn readings_touch(
    line_count: int,
    ids: Seq<PhysicalLineIdentity>,
    assisted: Seq<AssistedModifierObservation>,
    a: (int, int),
    b: (int, int),
) -> bool {
    ranges_overlap(a.0, a.1, b.0, b.1) || exists|x: Seq<char>|
        #![trigger reading_band_in(line_count, ids, assisted, a, x)]
        reading_band_in(line_count, ids, assisted, a, x) && reading_band_in(line_count, ids, assisted, b, x)
}

/// Some enabled condition of `g` reads a reading.
pub open spec fn group_reads(
    g: GroupDefinitionView,
    lines: Seq<Seq<char>>,
    assisted: Seq<AssistedModifierObservation>,
    span: int,
    r: (int, int),
) -> bool {
    exists|k: int|
        0 <= k < enabled_indices(g.conditions).len() && reading_fits(
            g.conditions[#[trigger] enabled_indices(g.conditions)[k]],
            lines,
            assisted,
            span,
            r,
        )
}

/// `path` steps from reading to touching reading, each read by an enabled
/// condition of `g`.
pub open spec fn reading_chain(
    g: GroupDefinitionView,
    lines: Seq<Seq<char>>,
    ids: Seq<PhysicalLineIdentity>,
    assisted: Seq<AssistedModifierObservation>,
    span: int,
    path: Seq<(int, int)>,
) -> bool {
    &&& path.len() >= 1
    &&& forall|i: int| 0 <= i < path.len() ==> group_reads(g, lines, assisted, span, #[trigger] path[i])
    &&& forall|i: int|
        0 <= i < path.len() - 1 ==> readings_touch(lines.len() as int, ids, assisted, #[trigger] path[i], path[i + 1])
}

/// Readings `a` and `b` count as one physical modifier: a chain of readings
/// links them.
pub open spec fn one_modifier(
    g: GroupDefinitionView,
    lines: Seq<Seq<char>>,
    ids: Seq<PhysicalLineIdentity>,
    assisted: Seq<AssistedModifierObservation>,
    span: int,
    a: (int, int),
    b: (int, int),
) -> bool {
    exists|path: Seq<(int, int)>|
        #[trigger] reading_chain(g, lines, ids, assisted, span, path) && path[0] == a && path.last() == b
}

/// A reading for some of the enabled conditions of `g`: each satisfies its
/// condition, and no two are one physical modifier.
pub open spec fn valid_choice(
    g: GroupDefinitionView,
    lines: Seq<Seq<char>>,
    ids: Seq<PhysicalLineIdentity>,
    assisted: Seq<AssistedModifierObservation>,
    span: int,
    choice: Seq<Option<(int, int)>>,
) -> bool {
    let idx = enabled_indices(g.conditions);
    &&& choice.len() == idx.len()
    &&& forall|k: int|
        0 <= k < choice.len() && (#[trigger] choice[k]) is Some ==> reading_satisfies(
            g.conditions[idx[k]],
            lines,
            assisted,
            span,
            choice[k].unwrap(),
        )
    &&& forall|a: int, b: int|
        0 <= a < choice.len() && 0 <= b < choice.len() && a != b && (#[trigger] choice[a]) is Some && (#[trigger] choice[b]) is Some
            ==> !one_modifier(g, lines, ids, assisted, span, choice[a].unwrap(), choice[b].unwrap())
}

/// The readings reported as satisfying the enabled conditions.
pub open spec fn reported_choice(ge: ResultGroupEvaluation) -> Seq<Option<(int, int)>> {
    Seq::new(
        ge.conditions@.len(),
        |k: int|
            if ge.conditions@[k].is_matched {
                Some(
                    (
                        ge.conditions@[k].observation.unwrap().start_line_index as int,
                        ge.conditions@[k].observation.unwrap().physical_line_count as int,
                    ),
                )
            } else {
                None
            },
    )
}

/// Evidence for every slot of a reading: each constraint checked against the
/// value the reading shows in its slot.
pub open spec fn slots_shown(
    slots: Seq<NumericSlotEvidence>,
    constraints: Seq<NumericConstraint>,
    values: Seq<Option<int>>,
) -> bool {
    &&& slots.len() == constraints.len()
    &&& forall|k: int|
        0 <= k < slots.len() ==> {
            &&& (#[trigger] slots[k]).slot_index == k
            &&& slots[k].constraint == constraints[k]
            &&& units_of(slots[k].actual_value) == shown(values, k)
            &&& slots[k].is_satisfied == constraint_holds(constraints[k], shown(values, k))
        }
}

/// For each slot of condition `c`'s template, whether its constraint holds
/// of the value reading `r` shows in it.
pub open spec fn slot_holds(
    c: ConditionView,
    lines: Seq<Seq<char>>,
    assisted: Seq<AssistedModifierObservation>,
    r: (int, int),
) -> Seq<bool> {
    let n = slot_count(shape_of(c.template));
    Seq::new(n, |k: int| constraint_holds(padded(c.constraints, n)[k], shown(reading_values(c, lines, assisted, r), k)))
}

/// As the near miss to show, the reading with slot results `x` ranks no
/// higher than the one with `y`: first by whether every slot holds, then by
/// how many do.
pub open spec fn ranks_no_higher(x: Seq<bool>, y: Seq<bool>) -> bool {
    let all_x = forall|k: int| 0 <= k < x.len() ==> #[trigger] x[k];
    let all_y = forall|k: int| 0 <= k < y.len() ==> #[trigger] y[k];
    (!all_x && all_y) || (all_x == all_y && count_true(x) <= count_true(y))
}

/// What is reported for condition `c`, satisfied or not: a reading that
/// reads as its template, with the values it shows and its slots checked,
/// or no observation when no reading reads as it. For a condition left
/// unsatisfied, the reading shown is a nearest miss: no reading that reads
/// as the template ranks higher.
pub open spec fn observation_reported(
    ce: ConditionEvaluation,
    c: ConditionView,
    lines: Seq<Seq<char>>,
    assisted: Seq<AssistedModifierObservation>,
    span: int,
) -> bool {
    match ce.observation {
        Some(o) => {
            let r = (o.start_line_index as int, o.physical_line_count as int);
            &&& reading_fits(c, lines, assisted, span, r)
            &&& slots_shown(
                ce.numeric_slots@,
                padded(c.constraints, slot_count(shape_of(c.template))),
                reading_values(c, lines, assisted, r),
            )
            &&& crate::matching::values_view(o.numeric_values@) == reading_values(c, lines, assisted, r)
            &&& !ce.is_matched ==> forall|q: (int, int)|
                #[trigger] reading_fits(c, lines, assisted, span, q) ==> ranks_no_higher(
                    slot_holds(c, lines, assisted, q),
                    slot_holds(c, lines, assisted, r),
                )
        },
        None => forall|r: (int, int)| !#[trigger] reading_fits(c, lines, assisted, span, r),
    }
}

/// Reading `a` spans fewer lines than `b`, or as many and starts no later.
pub open spec fn fewest_lines_first(a: (int, int), b: (int, int)) -> bool {
    a.1 < b.1 || (a.1 == b.1 && a.0 <= b.0)
}

/// The reported readings are a valid choice, no valid choice satisfies more
/// conditions, and every condition reports a reading of its own. A
/// satisfied condition reports, of the readings that satisfy it within the
/// same physical modifier, the one on the fewest lines, then the earliest.
pub open spec fn group_optimal(
    ge: ResultGroupEvaluation,
    g: GroupDefinitionView,
    lines: Seq<Seq<char>>,
    ids: Seq<PhysicalLineIdentity>,
    assisted: Seq<AssistedModifierObservation>,
    span: int,
) -> bool {
    &&& valid_choice(g, lines, ids, assisted, span, reported_choice(ge))
    &&& count_some(reported_choice(ge)) == ge.matched_count
    &&& forall|k: int|
        0 <= k < ge.conditions@.len() && k < enabled_indices(g.conditions).len() ==> observation_reported(
            #[trigger] ge.conditions@[k],
            g.conditions[enabled_indices(g.conditions)[k]],
            lines,
            assisted,
            span,
        )
    &&& forall|choice: Seq<Option<(int, int)>>|
        #[trigger] valid_choice(g, lines, ids, assisted, span, choice) ==> count_some(choice) <= ge.matched_count
    &&& forall|k: int, q: (int, int)|
        0 <= k < ge.conditions@.len() && k < enabled_indices(g.conditions).len() && ge.conditions@[k].is_matched
            && reading_satisfies(g.conditions[enabled_indices(g.conditions)[k]], lines, assisted, span, q)
            && #[trigger] one_modifier(g, lines, ids, assisted, span, q, reported_choice(ge)[k].unwrap())
            ==> fewest_lines_first(reported_choice(ge)[k].unwrap(), q)
}

/// Every acceptable result reports an optimal choice.
pub open spec fn evaluation_optimal(
    source: DefinitionView,
    span: int,
    lines: Seq<Seq<char>>,
    ids: Seq<PhysicalLineIdentity>,
    assisted: Seq<AssistedModifierObservation>,
    r: RuleEvaluationResult,
) -> bool {
    forall|g: int|
        0 <= g < r.groups@.len() && g < source.groups.len() ==> group_optimal(
            #[trigger] r.groups@[g],
            source.groups[g],
            lines,
            ids,
            assisted,
            span,
        )
}

/// The bands an observation carries, trimmed, without repeats and in sorted
/// order, the first also given on its own: for one read off the lines, the
/// band of each of its lines; for an assisted one, the band of an assisted
/// reading whose text it is.
pub open spec fn observation_bands_ok(
    o: ModifierObservation,
    line_count: int,
    ids: Seq<PhysicalLineIdentity>,
    assisted: Seq<AssistedModifierObservation>,
) -> bool {
    let bands = crate::text::string_views(o.physical_band_ids@);
    &&& strictly_sorted(bands)
    &&& match o.physical_band_id {
        Some(b) => bands.len() > 0 && b@ == bands[0],
        None => bands.len() == 0,
    }
    &&& if o.start_line_index < line_count {
        line_bands_listed(bands, ids, o.start_line_index as int, o.start_line_index + o.physical_line_count)
    } else {
        exists|a: int| 0 <= a < assisted.len() && from_assisted(bands, o.original_text@, #[trigger] assisted[a])
    }
}

/// Every observation that satisfies a condition carries its bands.
pub open spec fn group_bands_ok(
    ge: ResultGroupEvaluation,
    line_count: int,
    ids: Seq<PhysicalLineIdentity>,
    assisted: Seq<AssistedModifierObservation>,
) -> bool {
    forall|k: int|
        0 <= k < ge.conditions@.len() && (#[trigger] ge.conditions@[k]).is_matched ==> observation_bands_ok(
            ge.conditions@[k].observation.unwrap(),
            line_count,
            ids,
            assisted,
        )
}

/// Every acceptable result's satisfying observations carry their bands.
pub open spec fn identity_respected(
    r: RuleEvaluationResult,
    line_count: int,
    ids: Seq<PhysicalLineIdentity>,
    assisted: Seq<AssistedModifierObservation>,
) -> bool {
    forall|g: int| 0 <= g < r.groups@.len() ==> group_bands_ok(#[trigger] r.groups@[g], line_count, ids, assisted)
}

// ---------------------------------------------------------------------------
// Evaluation
// ---------------------------------------------------------------------------

fn band_strings(bands: &Vec<Vec<char>>) -> (r: Vec<String>)
    ensures
        crate::text::string_views(r@) == crate::text::views(bands@),
{
    crate::text::lines_to_strings(bands)
}

fn observation_from(p: &Prepared, values: &Vec<Option<Decimal>>) -> (o: ModifierObservation)
    ensures
        o.start_line_index == p.start,
        o.physical_line_count == p.count,
        o.numeric_values@ == values@,
        crate::text::string_views(o.physical_band_ids@) == crate::text::views(p.bands@),
        o.original_text@ == p.original@,
        match o.physical_band_id {
            Some(b) => p.bands@.len() > 0 && b@ == p.bands@[0]@,
            None => p.bands@.len() == 0,
        },
        o.canonical_text@ == (match p.target {
            Some(t) => t@,
            None => display(affix_views(p.tokens@)),
        }),
{
    let canonical = match &p.target {
        Some(t) => crate::text::string_of(t.as_slice()),
        None => {
            let shown = crate::matching::display_tokens(&p.tokens);
            crate::text::string_of(shown.as_slice())
        },
    };
    let ids = band_strings(&p.bands);
    let first = if p.bands.len() > 0 {
        Some(crate::text::string_of(p.bands[0].as_slice()))
    } else {
        None
    };
    ModifierObservation {
        start_line_index: p.start,
        physical_line_count: p.count,
        original_text: crate::text::string_of(p.original.as_slice()),
        canonical_text: canonical,
        numeric_values: copy_values(values),
        physical_band_id: first,
        physical_band_ids: ids,
    }
}

fn copy_slots(v: &Vec<NumericSlotEvidence>) -> (r: Vec<NumericSlotEvidence>)
    ensures
        r@ == v@,
{
    let n = v.len();
    let mut r: Vec<NumericSlotEvidence> = Vec::new();
    let mut k: usize = 0;
    while k < n
        invariant
            n == v@.len(),
            k <= n,
            r@ == v@.take(k as int),
        decreases n - k,
    {
        r.push(v[k]);
        assert(v@.take(k + 1) =~= v@.take(k as int).push(v@[k as int]));
        k = k + 1;
    }
    assert(v@.take(n as int) =~= v@);
    r
}

/// The textual match to show for a condition nothing satisfied: the last
/// candidate with the best (numeric match, satisfied slots).
fn best_text_candidate(cands: &Vec<Candidate>) -> (r: Option<usize>)
    ensures
        match r {
            Some(i) => {
                &&& i < cands@.len()
                &&& forall|j: int| 0 <= j < cands@.len() ==> key_le(#[trigger] cands@[j], cands@[i as int])
                &&& forall|j: int| i < j < cands@.len() ==> !key_le(cands@[i as int], #[trigger] cands@[j])
            },
            None => cands@.len() == 0,
        },
{
    let n = cands.len();
    let mut best: Option<usize> = None;
    let mut i: usize = 0;
    while i < n
        invariant
            n == cands@.len(),
            i <= n,
            match best {
                Some(b) => {
                    &&& b < i
                    &&& forall|j: int| 0 <= j < i ==> key_le(#[trigger] cands@[j], cands@[b as int])
                    &&& forall|j: int| b < j < i ==> !key_le(cands@[b as int], #[trigger] cands@[j])
                },
                None => i == 0,
            },
        decreases n - i,
    {
        let better = match best {
            None => true,
            Some(b) => {
                let x = &cands[i];
                let y = &cands[b];
                (x.numeric_ok && !y.numeric_ok) || (x.numeric_ok == y.numeric_ok && x.satisfied >= y.satisfied)
            },
        };
        if better {
            best = Some(i);
        }
        i = i + 1;
    }
    best
}

fn condition_name(cc: &CompiledCondition) -> (s: String)
    ensures
        s@ == (if trim(cc.name@).len() == 0 {
            cc.template@
        } else {
            cc.name@
        }),
{
    let t = crate::text::chars_of(cc.name.as_str());
    let t = trim_chars(t.as_slice());
    if t.len() == 0 {
        cc.template.clone()
    } else {
        cc.name.clone()
    }
}

fn group_name(cg: &CompiledGroup, i: usize) -> (s: String)
    requires
        i < usize::MAX,
    ensures
        s@ == (if trim(cg.name@).len() == 0 {
            default_group_name(i as int)
        } else {
            cg.name@
        }),
{
    let t = crate::text::chars_of(cg.name.as_str());
    let t = trim_chars(t.as_slice());
    if t.len() == 0 {
        let mut m = literal("Result ");
        push_ordinal(&mut m, i);
        crate::text::string_of(m.as_slice())
    } else {
        cg.name.clone()
    }
}

fn all_candidates(cg: &CompiledGroup, preps: &Vec<Prepared>) -> (cands: Vec<Vec<Candidate>>)
    ensures
        cands@.len() == cg.conditions@.len(),
        forall|k: int, i: int|
            0 <= k < cands@.len() && 0 <= i < cands@[k]@.len() ==> candidate_ok(
                #[trigger] cands@[k]@[i],
                cg.conditions@[k],
                preps@,
            ),
        forall|k: int, i: int|
            0 <= k < cands@.len() && 0 <= i < preps@.len() && prep_fits(preps@[i], #[trigger] cg.conditions@[k])
                ==> #[trigger] has_cand(cands@[k]@, i),
{
    let n = cg.conditions.len();
    let mut cands: Vec<Vec<Candidate>> = Vec::new();
    let mut k: usize = 0;
    while k < n
        invariant
            n == cg.conditions@.len(),
            k <= n,
            cands@.len() == k,
            forall|x: int, i: int|
                0 <= x < cands@.len() && 0 <= i < cands@[x]@.len() ==> candidate_ok(
                    #[trigger] cands@[x]@[i],
                    cg.conditions@[x],
                    preps@,
                ),
            forall|x: int, i: int|
                0 <= x < cands@.len() && 0 <= i < preps@.len() && prep_fits(preps@[i], #[trigger] cg.conditions@[x])
                    ==> #[trigger] has_cand(cands@[x]@, i),
        decreases n - k,
    {
        let found = find_candidates(&cg.conditions[k], preps);
        let ghost old_cands = cands@;
        cands.push(found);
        assert forall|x: int, i: int|
            0 <= x < cands@.len() && 0 <= i < preps@.len() && prep_fits(preps@[i], #[trigger] cg.conditions@[x])
                implies #[trigger] has_cand(cands@[x]@, i) by {
            if x < k {
                assert(cands@[x] == old_cands[x]);
            } else {
                assert(prep_fits(preps@[i], cg.conditions@[k as int]));
            }
        }
        k = k + 1;
    }
    cands
}

fn candidate_mask(cands: &Vec<Vec<Candidate>>, p: usize) -> (mask: Vec<bool>)
    requires
        forall|k: int, i: int|
            0 <= k < cands@.len() && 0 <= i < cands@[k]@.len() ==> (#[trigger] cands@[k]@[i]).obs < p,
    ensures
        mask@.len() == p,
        forall|k: int, i: int|
            0 <= k < cands@.len() && 0 <= i < cands@[k]@.len() ==> mask@[(#[trigger] cands@[k]@[i]).obs as int],
        forall|o: int| 0 <= o < p && #[trigger] mask@[o] ==> exists|k: int| 0 <= k < cands@.len() && has_cand(#[trigger] cands@[k]@, o),
{
    let mut mask: Vec<bool> = Vec::new();
    let mut x: usize = 0;
    while x < p
        invariant
            x <= p,
            mask@.len() == x,
            forall|o: int| 0 <= o < x ==> !(#[trigger] mask@[o]),
        decreases p - x,
    {
        mask.push(false);
        x = x + 1;
    }
    let n = cands.len();
    let mut k: usize = 0;
    while k < n
        invariant
            n == cands@.len(),
            k <= n,
            mask@.len() == p,
            forall|a: int, i: int|
                0 <= a < cands@.len() && 0 <= i < cands@[a]@.len() ==> (#[trigger] cands@[a]@[i]).obs < p,
            forall|a: int, i: int|
                0 <= a < k && 0 <= i < cands@[a]@.len() ==> mask@[(#[trigger] cands@[a]@[i]).obs as int],
            forall|o: int| 0 <= o < p && #[trigger] mask@[o] ==> exists|a: int| 0 <= a < cands@.len() && has_cand(#[trigger] cands@[a]@, o),
        decreases n - k,
    {
        let m = cands[k].len();
        let mut i: usize = 0;
        while i < m
            invariant
                n == cands@.len(),
                k < n,
                m == cands@[k as int]@.len(),
                i <= m,
                mask@.len() == p,
                forall|a: int, j: int|
                    0 <= a < cands@.len() && 0 <= j < cands@[a]@.len() ==> (#[trigger] cands@[a]@[j]).obs < p,
                forall|a: int, j: int|
                    0 <= a < k && 0 <= j < cands@[a]@.len() ==> mask@[(#[trigger] cands@[a]@[j]).obs as int],
                forall|j: int| 0 <= j < i ==> mask@[(#[trigger] cands@[k as int]@[j]).obs as int],
                forall|o: int| 0 <= o < p && #[trigger] mask@[o] ==> exists|a: int| 0 <= a < cands@.len() && has_cand(#[trigger] cands@[a]@, o),
            decreases m - i,
        {
            let o = cands[k][i].obs;
            mask.set(o, true);
            assert(has_cand(cands@[k as int]@, o as int));
            i = i + 1;
        }
        k = k + 1;
    }
    mask
}

fn all_edges(cands: &Vec<Vec<Candidate>>, labels: &Vec<usize>, preps: &Vec<Prepared>) -> (edges: Vec<Vec<Edge>>)
    requires
        labels@.len() == preps@.len(),
        forall|k: int| 0 <= k < labels@.len() ==> #[trigger] labels@[k] < preps@.len(),
        forall|k: int, i: int|
            0 <= k < cands@.len() && 0 <= i < cands@[k]@.len() ==> (#[trigger] cands@[k]@[i]).obs < preps@.len(),
    ensures
        edges@.len() == cands@.len(),
        forall|k: int| 0 <= k < edges@.len() ==> edges_ok(#[trigger] edges@[k]@, cands@[k]@, labels@, preps@.len() as int),
        labels_bounded(edges@, preps@.len() as int),
        forall|k: int, x: int|
            0 <= k < edges@.len() && 0 <= x < cands@[k]@.len() && (#[trigger] cands@[k]@[x]).numeric_ok ==> has_label(
                edges@[k]@,
                labels@[cands@[k]@[x].obs as int],
            ),
        forall|k: int| 0 <= k < edges@.len() ==> edges_least(#[trigger] edges@[k]@, cands@[k]@, labels@, preps@),
{
    let n = cands.len();
    let mut edges: Vec<Vec<Edge>> = Vec::new();
    let mut k: usize = 0;
    while k < n
        invariant
            n == cands@.len(),
            k <= n,
            edges@.len() == k,
            labels@.len() == preps@.len(),
            forall|x: int| 0 <= x < labels@.len() ==> #[trigger] labels@[x] < preps@.len(),
            forall|x: int, i: int|
                0 <= x < cands@.len() && 0 <= i < cands@[x]@.len() ==> (#[trigger] cands@[x]@[i]).obs < preps@.len(),
            forall|x: int| 0 <= x < k ==> edges_ok(#[trigger] edges@[x]@, cands@[x]@, labels@, preps@.len() as int),
            forall|x: int| 0 <= x < k ==> edges_least(#[trigger] edges@[x]@, cands@[x]@, labels@, preps@),
            forall|c: int, x: int|
                0 <= c < k && 0 <= x < cands@[c]@.len() && (#[trigger] cands@[c]@[x]).numeric_ok ==> has_label(
                    edges@[c]@,
                    labels@[cands@[c]@[x].obs as int],
                ),
        decreases n - k,
    {
        assert forall|i: int| 0 <= i < cands@[k as int]@.len() implies (#[trigger] cands@[k as int]@[i]).obs < preps@.len() by {
        }
        let e = component_edges(&cands[k], labels, preps);
        let ghost old_edges = edges@;
        edges.push(e);
        assert forall|x: int| 0 <= x < k + 1 implies edges_least(#[trigger] edges@[x]@, cands@[x]@, labels@, preps@) by {
            if x < k {
                assert(edges@[x] == old_edges[x]);
            }
        }
        assert forall|c: int, x: int|
            0 <= c < k + 1 && 0 <= x < cands@[c]@.len() && (#[trigger] cands@[c]@[x]).numeric_ok implies has_label(
                edges@[c]@,
                labels@[cands@[c]@[x].obs as int],
            ) by {
            if c < k {
                assert(edges@[c] == old_edges[c]);
            }
        }
        k = k + 1;
    }
    assert forall|c: int, e: int| 0 <= c < edges@.len() && 0 <= e < edges@[c]@.len() implies (#[trigger] edges@[c]@[e]).label < preps@.len() by {
        assert(edges_ok(edges@[c]@, cands@[c]@, labels@, preps@.len() as int));
    }
    edges
}

/// What is reported for compiled condition `k`, given the assignment.
closed spec fn reported(
    ce: ConditionEvaluation,
    cc: CompiledCondition,
    cands: Seq<Candidate>,
    edges: Seq<Edge>,
    assigned: Option<usize>,
    preps: Seq<Prepared>,
) -> bool {
    &&& ce.condition_index == cc.original_index
    &&& ce.name@ == (if trim(cc.name@).len() == 0 {
        cc.template@
    } else {
        cc.name@
    })
    &&& ce.template@ == cc.template@
    &&& ce.is_matched == assigned is Some
    &&& assigned is Some ==> {
        let cand = cands[edges[assigned.unwrap() as int].cand as int];
        let p = preps[cand.obs as int];
        &&& ce.observation is Some
        &&& ce.observation.unwrap().start_line_index == p.start
        &&& ce.observation.unwrap().physical_line_count == p.count
        &&& crate::text::string_views(ce.observation.unwrap().physical_band_ids@) == crate::text::views(p.bands@)
        &&& ce.observation.unwrap().original_text@ == p.original@
        &&& match ce.observation.unwrap().physical_band_id {
            Some(b) => p.bands@.len() > 0 && b@ == p.bands@[0]@,
            None => p.bands@.len() == 0,
        }
        &&& ce.observation.unwrap().numeric_values@ == cand.values@
        &&& ce.observation.unwrap().canonical_text@ == (match p.target {
            Some(t) => t@,
            None => display(affix_views(p.tokens@)),
        })
        &&& ce.numeric_slots@ == cand.slots@
    }
    &&& assigned is None ==> match ce.observation {
        None => cands.len() == 0,
        Some(o) => exists|b: int|
            0 <= b < cands.len() && o.start_line_index == preps[(#[trigger] cands[b]).obs as int].start
                && o.physical_line_count == preps[cands[b].obs as int].count && ce.numeric_slots@ == cands[b].slots@
                && o.numeric_values@ == cands[b].values@ && forall|j: int|
                0 <= j < cands.len() ==> key_le(#[trigger] cands[j], cands[b]),
    }
}

fn report_condition(
    cc: &CompiledCondition,
    cands: &Vec<Candidate>,
    edges: &Vec<Edge>,
    assigned: Option<usize>,
    preps: &Vec<Prepared>,
) -> (ce: ConditionEvaluation)
    requires
        forall|i: int| 0 <= i < cands@.len() ==> candidate_ok(#[trigger] cands@[i], *cc, preps@),
        forall|e: int| 0 <= e < edges@.len() ==> (#[trigger] edges@[e]).cand < cands@.len(),
        assigned is Some ==> assigned.unwrap() < edges@.len(),
    ensures
        reported(ce, *cc, cands@, edges@, assigned, preps@),
{
    let name = condition_name(cc);
    let template = cc.template.clone();
    match assigned {
        Some(e) => {
            let cand = &cands[edges[e].cand];
            assert(candidate_ok(cands@[edges@[e as int].cand as int], *cc, preps@));
            let observation = observation_from(&preps[cand.obs], &cand.values);
            ConditionEvaluation {
                condition_index: cc.original_index,
                name,
                template,
                is_matched: true,
                observation: Some(observation),
                numeric_slots: copy_slots(&cand.slots),
            }
        },
        None => {
            match best_text_candidate(cands) {
                Some(b) => {
                    let cand = &cands[b];
                    assert(candidate_ok(cands@[b as int], *cc, preps@));
                    let observation = observation_from(&preps[cand.obs], &cand.values);
                    ConditionEvaluation {
                        condition_index: cc.original_index,
                        name,
                        template,
                        is_matched: false,
                        observation: Some(observation),
                        numeric_slots: copy_slots(&cand.slots),
                    }
                },
                None => ConditionEvaluation {
                    condition_index: cc.original_index,
                    name,
                    template,
                    is_matched: false,
                    observation: None,
                    numeric_slots: Vec::new(),
                },
            }
        },
    }
}

fn report_conditions(
    cg: &CompiledGroup,
    cands: &Vec<Vec<Candidate>>,
    edges: &Vec<Vec<Edge>>,
    assigned: &Vec<Option<usize>>,
    preps: &Vec<Prepared>,
    labels: Ghost<Seq<usize>>,
) -> (r: (Vec<ConditionEvaluation>, usize))
    requires
        cands@.len() == cg.conditions@.len(),
        edges@.len() == cands@.len(),
        assigned@.len() == cands@.len(),
        forall|k: int, i: int|
            0 <= k < cands@.len() && 0 <= i < cands@[k]@.len() ==> candidate_ok(
                #[trigger] cands@[k]@[i],
                cg.conditions@[k],
                preps@,
            ),
        forall|k: int| 0 <= k < edges@.len() ==> edges_ok(#[trigger] edges@[k]@, cands@[k]@, labels@, preps@.len() as int),
        forall|k: int| 0 <= k < assigned@.len() && (#[trigger] assigned@[k]) is Some ==> assigned@[k].unwrap() < edges@[k]@.len(),
    ensures
        r.0@.len() == cands@.len(),
        r.1 == matched_total(r.0@),
        forall|k: int|
            0 <= k < r.0@.len() ==> reported(
                #[trigger] r.0@[k],
                cg.conditions@[k],
                cands@[k]@,
                edges@[k]@,
                assigned@[k],
                preps@,
            ),
{
    let n = cands.len();
    let mut out: Vec<ConditionEvaluation> = Vec::new();
    let mut matched: usize = 0;
    let mut k: usize = 0;
    while k < n
        invariant
            n == cands@.len(),
            n == cg.conditions@.len(),
            n == edges@.len(),
            n == assigned@.len(),
            k <= n,
            out@.len() == k,
            matched <= k,
            matched == matched_total(out@),
            forall|x: int, i: int|
                0 <= x < cands@.len() && 0 <= i < cands@[x]@.len() ==> candidate_ok(
                    #[trigger] cands@[x]@[i],
                    cg.conditions@[x],
                    preps@,
                ),
            forall|x: int| 0 <= x < edges@.len() ==> edges_ok(#[trigger] edges@[x]@, cands@[x]@, labels@, preps@.len() as int),
            forall|x: int| 0 <= x < assigned@.len() && (#[trigger] assigned@[x]) is Some ==> assigned@[x].unwrap() < edges@[x]@.len(),
            forall|x: int|
                0 <= x < k ==> reported(
                    #[trigger] out@[x],
                    cg.conditions@[x],
                    cands@[x]@,
                    edges@[x]@,
                    assigned@[x],
                    preps@,
                ),
        decreases n - k,
    {
        assert(edges_ok(edges@[k as int]@, cands@[k as int]@, labels@, preps@.len() as int));
        assert forall|i: int| 0 <= i < cands@[k as int]@.len() implies candidate_ok(#[trigger] cands@[k as int]@[i], cg.conditions@[k as int], preps@) by {}
        assert forall|e: int| 0 <= e < edges@[k as int]@.len() implies (#[trigger] edges@[k as int]@[e]).cand < cands@[k as int]@.len() by {}
        let ce = report_condition(&cg.conditions[k], &cands[k], &edges[k], assigned[k], preps);
        let ghost before = out@;
        if ce.is_matched {
            matched = matched + 1;
        }
        out.push(ce);
        assert(out@.drop_last() =~= before);
        k = k + 1;
    }
    (out, matched)
}

proof fn lemma_condition_result(
    ce: ConditionEvaluation,
    cc: CompiledCondition,
    c: ConditionView,
    j: int,
    cands: Seq<Candidate>,
    edges: Seq<Edge>,
    assigned: Option<usize>,
    preps: Seq<Prepared>,
    lines: Seq<Seq<char>>,
    span: int,
    labels: Seq<usize>,
)
    requires
        reported(ce, cc, cands, edges, assigned, preps),
        compiled_condition_of(cc, c, j, span),
        forall|i: int| 0 <= i < cands.len() ==> candidate_ok(#[trigger] cands[i], cc, preps),
        edges_ok(edges, cands, labels, preps.len() as int),
        assigned is Some ==> assigned.unwrap() < edges.len(),
        forall|i: int| 0 <= i < preps.len() ==> prepared_ok(#[trigger] preps[i], lines, span),
        1 <= span,
    ensures
        condition_result_ok(ce, c, j, lines, span),
{
    if assigned is Some {
        let e = assigned.unwrap() as int;
        let ci = edges[e].cand as int;
        let cand = cands[ci];
        assert(candidate_ok(cand, cc, preps));
        let pi = cand.obs as int;
        let p = preps[pi];
        assert(prepared_ok(p, lines, span));
        let o = ce.observation.unwrap();
        match p.target {
            None => {
                assert(crate::matching::span_readable(lines, p.start as int, p.count as int, span));
                assert(o.start_line_index < lines.len());
            },
            Some(t) => {
                assert(o.start_line_index >= lines.len());
            },
        }
        assert(match_evidence(o, c, lines, span));
    }
}

proof fn lemma_one_modifier(
    ces: Seq<ConditionEvaluation>,
    ccs: Seq<CompiledCondition>,
    cands: Seq<Vec<Candidate>>,
    edges: Seq<Vec<Edge>>,
    assigned: Seq<Option<usize>>,
    owner: Seq<Option<usize>>,
    labels: Seq<usize>,
    mask: Seq<bool>,
    preps: Seq<Prepared>,
)
    requires
        ces.len() == ccs.len(),
        cands.len() == ccs.len(),
        edges.len() == ccs.len(),
        assigned.len() == ccs.len(),
        assigned.len() <= usize::MAX,
        assignment_ok(edges, owner, assigned),
        forall|k: int| 0 <= k < edges.len() ==> edges_ok(#[trigger] edges[k]@, cands[k]@, labels, preps.len() as int),
        forall|k: int|
            0 <= k < ces.len() ==> reported(#[trigger] ces[k], ccs[k], cands[k]@, edges[k]@, assigned[k], preps),
        forall|k: int, i: int|
            0 <= k < cands.len() && 0 <= i < cands[k]@.len() ==> mask[(#[trigger] cands[k]@[i]).obs as int],
        mask.len() == preps.len(),
        labels.len() == preps.len(),
        forall|a: int, b: int|
            0 <= a < preps.len() && 0 <= b < preps.len() && mask[a] && mask[b] && touch(
                #[trigger] preps[a],
                #[trigger] preps[b],
            ) ==> labels[a] == labels[b],
    ensures
        one_modifier_per_condition(ces),
{
    assert forall|a: int, b: int|
        0 <= a < ces.len() && 0 <= b < ces.len() && a != b && (#[trigger] ces[a]).is_matched
            && (#[trigger] ces[b]).is_matched implies {
            let oa = ces[a].observation.unwrap();
            let ob = ces[b].observation.unwrap();
            &&& !ranges_overlap(
                oa.start_line_index as int,
                oa.physical_line_count as int,
                ob.start_line_index as int,
                ob.physical_line_count as int,
            )
            &&& !shares_band(
                crate::text::string_views(oa.physical_band_ids@),
                crate::text::string_views(ob.physical_band_ids@),
            )
        } by {
        assert(reported(ces[a], ccs[a], cands[a]@, edges[a]@, assigned[a], preps));
        assert(reported(ces[b], ccs[b], cands[b]@, edges[b]@, assigned[b], preps));
        lemma_assignment_distinct(edges, owner, assigned, a, b);
        let ea = assigned[a].unwrap() as int;
        let eb = assigned[b].unwrap() as int;
        assert(edges_ok(edges[a]@, cands[a]@, labels, preps.len() as int));
        assert(edges_ok(edges[b]@, cands[b]@, labels, preps.len() as int));
        let ca = edges[a]@[ea].cand as int;
        let cb = edges[b]@[eb].cand as int;
        let pa = cands[a]@[ca].obs as int;
        let pb = cands[b]@[cb].obs as int;
        assert(mask[pa]);
        assert(mask[pb]);
        assert(labels[pa] != labels[pb]);
        assert(!touch(preps[pa], preps[pb]));
    }
}

spec fn reading_of(p: Prepared) -> (int, int) {
    (p.start as int, p.count as int)
}

/// What an assisted prepared observation holds of the assisted reading it
/// stands for.
closed spec fn prep_model_ok(p: Prepared, lines: Seq<Seq<char>>, assisted: Seq<AssistedModifierObservation>) -> bool {
    match p.target {
        None => true,
        Some(t) => {
            let r = reading_of(p);
            let a = assisted_of(lines.len() as int, assisted, r);
            &&& is_assisted_reading(lines.len() as int, assisted, r)
            &&& t@ == assisted_target(a)
            &&& p.original@ == trim(a.original_text@)
            &&& affix_views(p.tokens@) == shape_of(a.original_text@)
            &&& crate::matching::values_view(p.values@) == crate::matching::slot_values(
                crate::matching::lex(crate::matching::canonical_source(a.original_text@)),
            )
            &&& forall|i: int| 0 <= i < p.bands@.len() ==> assisted_band_in(a, #[trigger] p.bands@[i]@)
            &&& forall|x: Seq<char>| #[trigger] assisted_band_in(a, x) ==> crate::text::views(p.bands@).contains(x)
        },
    }
}

/// The assisted reading placed at `start` is among the prepared observations.
closed spec fn listed_assisted(preps: Seq<Prepared>, start: int) -> bool {
    exists|i: int| 0 <= i < preps.len() && (#[trigger] preps[i]).target is Some && preps[i].start == start && preps[i].count == 1
}

/// The prepared observations are exactly the readings, with their bands.
closed spec fn preps_model(
    preps: Seq<Prepared>,
    lines: Seq<Seq<char>>,
    ids: Seq<PhysicalLineIdentity>,
    assisted: Seq<AssistedModifierObservation>,
    span: int,
) -> bool {
    &&& forall|p: int|
        0 <= p < preps.len() ==> prepared_ok(#[trigger] preps[p], lines, span) && bands_ok(preps[p], ids, assisted)
            && prep_model_ok(preps[p], lines, assisted)
    &&& forall|s: int, c: int| crate::matching::span_readable(lines, s, c, span) ==> #[trigger] listed(preps, s, c)
    &&& forall|j: int|
        0 <= j < usable_indices(assisted).len() ==> #[trigger] listed_assisted(preps, lines.len() + j)
    &&& 1 <= span
}

/// What the candidates, the mask and the components of one acceptable result
/// hold.
closed spec fn cand_ctx(
    cg: CompiledGroup,
    g: GroupDefinitionView,
    preps: Seq<Prepared>,
    cands: Seq<Vec<Candidate>>,
    mask: Seq<bool>,
    span: int,
) -> bool {
    &&& compiled_group_of(cg, g, span)
    &&& cands.len() == cg.conditions@.len()
    &&& forall|k: int, i: int|
        0 <= k < cands.len() && 0 <= i < cands[k]@.len() ==> candidate_ok(#[trigger] cands[k]@[i], cg.conditions@[k], preps)
    &&& forall|k: int, i: int|
        0 <= k < cands.len() && 0 <= i < preps.len() && prep_fits(preps[i], #[trigger] cg.conditions@[k]) ==> #[trigger] has_cand(
            cands[k]@,
            i,
        )
    &&& mask.len() == preps.len()
    &&& forall|k: int, i: int| 0 <= k < cands.len() && 0 <= i < cands[k]@.len() ==> mask[(#[trigger] cands[k]@[i]).obs as int]
    &&& forall|o: int| 0 <= o < preps.len() && #[trigger] mask[o] ==> exists|k: int| 0 <= k < cands.len() && has_cand(#[trigger] cands[k]@, o)
}

/// A prepared observation's bands are exactly its reading's bands.
proof fn lemma_prep_bands(
    p: Prepared,
    lines: Seq<Seq<char>>,
    ids: Seq<PhysicalLineIdentity>,
    assisted: Seq<AssistedModifierObservation>,
    span: int,
    x: Seq<char>,
)
    requires
        prepared_ok(p, lines, span),
        bands_ok(p, ids, assisted),
        prep_model_ok(p, lines, assisted),
    ensures
        crate::text::views(p.bands@).contains(x) == reading_band_in(lines.len() as int, ids, assisted, reading_of(p), x),
{
    let bp = crate::text::views(p.bands@);
    let (ps, pc) = reading_of(p);
    match p.target {
        None => {
            assert(ps < lines.len());
            if bp.contains(x) {
                let i = choose|i: int| 0 <= i < bp.len() && bp[i] == x;
                assert(p.bands@[i]@ == bp[i]);
            }
            if line_band_in(ids, ps, ps + pc, x) {
                let k = choose|k: int| ps <= k < ps + pc && #[trigger] band_of(ids, k) is Some && trim(band_of(ids, k).unwrap()) == x && x.len() > 0;
                assert(band_listed(bp, band_of(ids, k).unwrap()));
            }
        },
        Some(_) => {
            assert(ps >= lines.len());
            let a = assisted_of(lines.len() as int, assisted, reading_of(p));
            if bp.contains(x) {
                let i = choose|i: int| 0 <= i < bp.len() && bp[i] == x;
                assert(p.bands@[i]@ == bp[i]);
                assert(assisted_band_in(a, p.bands@[i]@));
            }
        },
    }
}

proof fn lemma_touch_readings(
    p: Prepared,
    q: Prepared,
    lines: Seq<Seq<char>>,
    ids: Seq<PhysicalLineIdentity>,
    assisted: Seq<AssistedModifierObservation>,
    span: int,
)
    requires
        prepared_ok(p, lines, span),
        bands_ok(p, ids, assisted),
        prep_model_ok(p, lines, assisted),
        prepared_ok(q, lines, span),
        bands_ok(q, ids, assisted),
        prep_model_ok(q, lines, assisted),
    ensures
        touch(p, q) == readings_touch(lines.len() as int, ids, assisted, reading_of(p), reading_of(q)),
{
    let n = lines.len() as int;
    let bp = crate::text::views(p.bands@);
    let bq = crate::text::views(q.bands@);
    let rp = reading_of(p);
    let rq = reading_of(q);
    if shares_band(bp, bq) {
        let (i, j) = choose|i: int, j: int| 0 <= i < bp.len() && 0 <= j < bq.len() && #[trigger] bp[i] == #[trigger] bq[j];
        let x = bp[i];
        assert(bp.contains(x));
        assert(bq.contains(x));
        lemma_prep_bands(p, lines, ids, assisted, span, x);
        lemma_prep_bands(q, lines, ids, assisted, span, x);
        assert(reading_band_in(n, ids, assisted, rp, x));
    }
    if exists|x: Seq<char>|
        #![trigger reading_band_in(n, ids, assisted, rp, x)]
        reading_band_in(n, ids, assisted, rp, x) && reading_band_in(n, ids, assisted, rq, x) {
        let x = choose|x: Seq<char>|
            #![trigger reading_band_in(n, ids, assisted, rp, x)]
            reading_band_in(n, ids, assisted, rp, x) && reading_band_in(n, ids, assisted, rq, x);
        lemma_prep_bands(p, lines, ids, assisted, span, x);
        lemma_prep_bands(q, lines, ids, assisted, span, x);
        let i = choose|i: int| 0 <= i < bp.len() && bp[i] == x;
        let j = choose|j: int| 0 <= j < bq.len() && bq[j] == x;
        assert(shares_band(bp, bq));
    }
}

/// A candidate prepared observation reads as its condition, and satisfies it
/// when its numeric slots do.
proof fn lemma_candidate_reads(
    cg: CompiledGroup,
    g: GroupDefinitionView,
    preps: Seq<Prepared>,
    lines: Seq<Seq<char>>,
    ids: Seq<PhysicalLineIdentity>,
    assisted: Seq<AssistedModifierObservation>,
    span: int,
    k: int,
    cand: Candidate,
)
    requires
        preps_model(preps, lines, ids, assisted, span),
        compiled_group_of(cg, g, span),
        0 <= k < cg.conditions@.len(),
        candidate_ok(cand, cg.conditions@[k], preps),
    ensures
        reading_fits(
            g.conditions[enabled_indices(g.conditions)[k]],
            lines,
            assisted,
            span,
            reading_of(preps[cand.obs as int]),
        ),
        cand.numeric_ok ==> reading_satisfies(
            g.conditions[enabled_indices(g.conditions)[k]],
            lines,
            assisted,
            span,
            reading_of(preps[cand.obs as int]),
        ),
        slots_shown(
            cand.slots@,
            padded(
                g.conditions[enabled_indices(g.conditions)[k]].constraints,
                slot_count(shape_of(g.conditions[enabled_indices(g.conditions)[k]].template)),
            ),
            reading_values(
                g.conditions[enabled_indices(g.conditions)[k]],
                lines,
                assisted,
                reading_of(preps[cand.obs as int]),
            ),
        ),
        crate::matching::values_view(cand.values@) == reading_values(
            g.conditions[enabled_indices(g.conditions)[k]],
            lines,
            assisted,
            reading_of(preps[cand.obs as int]),
        ),
{
    let idx = enabled_indices(g.conditions);
    let c = g.conditions[idx[k]];
    let cc = cg.conditions@[k];
    assert(compiled_condition_of(cc, c, idx[k], span));
    let p = preps[cand.obs as int];
    assert(prepared_ok(p, lines, span));
    assert(prep_model_ok(p, lines, assisted));
    let r = reading_of(p);
    let n = slot_count(shape_of(c.template));
    let vals = reading_values(c, lines, assisted, r);
    match p.target {
        None => {
            assert(r.0 < lines.len());
        },
        Some(t) => {
            assert(r.0 >= lines.len());
            let a = assisted_of(lines.len() as int, assisted, r);
            if slot_kinds(cc.matcher.shape()) == slot_kinds(affix_views(p.tokens@)) {
                assert(vals == crate::matching::slot_values(
                    crate::matching::lex(crate::matching::canonical_source(a.original_text@)),
                ));
            }
        },
    }
    assert(crate::matching::values_view(cand.values@) == vals);
    assert forall|j: int| 0 <= j < cand.slots@.len() implies value_at(cand.values@, j) == shown(vals, j) by {
        if 0 <= j < cand.values@.len() {
            assert(crate::matching::values_view(cand.values@)[j] == crate::matching::opt_units(cand.values@[j]));
        }
    }
    if cand.numeric_ok {
        assert forall|j: int| 0 <= j < n implies constraint_holds(#[trigger] padded(c.constraints, n)[j], shown(vals, j)) by {
            assert(cand.slots@[j].is_satisfied);
            assert(cand.slots@[j].is_satisfied == constraint_holds(cc.constraints@[j], value_at(cand.values@, j)));
            if 0 <= j < cand.values@.len() {
                assert(crate::matching::values_view(cand.values@)[j] == crate::matching::opt_units(cand.values@[j]));
            }
            assert(value_at(cand.values@, j) == shown(vals, j));
        }
    }
}

proof fn lemma_masked_reads(
    cg: CompiledGroup,
    g: GroupDefinitionView,
    preps: Seq<Prepared>,
    cands: Seq<Vec<Candidate>>,
    mask: Seq<bool>,
    lines: Seq<Seq<char>>,
    ids: Seq<PhysicalLineIdentity>,
    assisted: Seq<AssistedModifierObservation>,
    span: int,
    o: int,
)
    requires
        preps_model(preps, lines, ids, assisted, span),
        cand_ctx(cg, g, preps, cands, mask, span),
        0 <= o < preps.len(),
        mask[o],
    ensures
        group_reads(g, lines, assisted, span, reading_of(preps[o])),
{
    let k = choose|k: int| 0 <= k < cands.len() && has_cand(#[trigger] cands[k]@, o);
    let x = choose|x: int| 0 <= x < cands[k]@.len() && (#[trigger] cands[k]@[x]).obs == o;
    assert(candidate_ok(cands[k]@[x], cg.conditions@[k], preps));
    lemma_candidate_reads(cg, g, preps, lines, ids, assisted, span, k, cands[k]@[x]);
    let idx = enabled_indices(g.conditions);
    assert(reading_fits(g.conditions[idx[k]], lines, assisted, span, reading_of(preps[o])));
}

/// The prepared observation of a reading that condition `k` reads.
proof fn lemma_reading_prep(
    cg: CompiledGroup,
    g: GroupDefinitionView,
    preps: Seq<Prepared>,
    cands: Seq<Vec<Candidate>>,
    mask: Seq<bool>,
    lines: Seq<Seq<char>>,
    ids: Seq<PhysicalLineIdentity>,
    assisted: Seq<AssistedModifierObservation>,
    span: int,
    k: int,
    r: (int, int),
) -> (o: int)
    requires
        preps_model(preps, lines, ids, assisted, span),
        cand_ctx(cg, g, preps, cands, mask, span),
        0 <= k < enabled_indices(g.conditions).len(),
        reading_fits(g.conditions[enabled_indices(g.conditions)[k]], lines, assisted, span, r),
    ensures
        0 <= o < preps.len(),
        mask[o],
        reading_of(preps[o]) == r,
        has_cand(cands[k]@, o),
{
    let idx = enabled_indices(g.conditions);
    let c = g.conditions[idx[k]];
    let cc = cg.conditions@[k];
    assert(compiled_condition_of(cc, c, idx[k], span));
    let o = if r.0 < lines.len() {
        assert(crate::matching::span_fits(shape_of(c.template), lines, r.0, r.1, span));
        assert(listed(preps, r.0, r.1));
        let o = choose|i: int| 0 <= i < preps.len() && (#[trigger] preps[i]).target is None && preps[i].start == r.0 && preps[i].count == r.1;
        assert(prepared_ok(preps[o], lines, span));
        assert(crate::matching::tokens_fit(cc.matcher.shape(), affix_views(preps[o].tokens@)));
        assert(prep_fits(preps[o], cc));
        o
    } else {
        let j = r.0 - lines.len();
        assert(is_assisted_reading(lines.len() as int, assisted, r));
        assert(listed_assisted(preps, lines.len() + j));
        let o = choose|i: int| 0 <= i < preps.len() && (#[trigger] preps[i]).target is Some && preps[i].start == lines.len() + j && preps[i].count == 1;
        assert(prepared_ok(preps[o], lines, span));
        assert(prep_model_ok(preps[o], lines, assisted));
        assert(reading_of(preps[o]) == r);
        assert(prep_fits(preps[o], cc));
        o
    };
    assert(has_cand(cands[k]@, o));
    let x = choose|x: int| 0 <= x < cands[k]@.len() && (#[trigger] cands[k]@[x]).obs == o;
    assert(mask[cands[k]@[x].obs as int]);
    o
}

proof fn lemma_reads_masked(
    cg: CompiledGroup,
    g: GroupDefinitionView,
    preps: Seq<Prepared>,
    cands: Seq<Vec<Candidate>>,
    mask: Seq<bool>,
    lines: Seq<Seq<char>>,
    ids: Seq<PhysicalLineIdentity>,
    assisted: Seq<AssistedModifierObservation>,
    span: int,
    r: (int, int),
) -> (o: int)
    requires
        preps_model(preps, lines, ids, assisted, span),
        cand_ctx(cg, g, preps, cands, mask, span),
        group_reads(g, lines, assisted, span, r),
    ensures
        0 <= o < preps.len(),
        mask[o],
        reading_of(preps[o]) == r,
{
    let idx = enabled_indices(g.conditions);
    let k = choose|k: int| 0 <= k < idx.len() && reading_fits(g.conditions[#[trigger] idx[k]], lines, assisted, span, r);
    lemma_reading_prep(cg, g, preps, cands, mask, lines, ids, assisted, span, k, r)
}

proof fn lemma_joined_one_modifier(
    cg: CompiledGroup,
    g: GroupDefinitionView,
    preps: Seq<Prepared>,
    cands: Seq<Vec<Candidate>>,
    mask: Seq<bool>,
    lines: Seq<Seq<char>>,
    ids: Seq<PhysicalLineIdentity>,
    assisted: Seq<AssistedModifierObservation>,
    span: int,
    a: int,
    b: int,
)
    requires
        preps_model(preps, lines, ids, assisted, span),
        cand_ctx(cg, g, preps, cands, mask, span),
        idx_joined(preps, mask, a, b),
    ensures
        one_modifier(g, lines, ids, assisted, span, reading_of(preps[a]), reading_of(preps[b])),
{
    let path = choose|path: Seq<int>| #[trigger] idx_chain(preps, mask, path) && path[0] == a && path.last() == b;
    let rpath = Seq::new(path.len(), |i: int| reading_of(preps[path[i]]));
    assert forall|i: int| 0 <= i < rpath.len() implies group_reads(g, lines, assisted, span, #[trigger] rpath[i]) by {
        assert(0 <= path[i] < preps.len() && mask[path[i]]);
        lemma_masked_reads(cg, g, preps, cands, mask, lines, ids, assisted, span, path[i]);
    }
    assert forall|i: int| 0 <= i < rpath.len() - 1 implies readings_touch(
        lines.len() as int,
        ids,
        assisted,
        #[trigger] rpath[i],
        rpath[i + 1],
    ) by {
        assert(touch(preps[path[i]], preps[path[i + 1]]));
        assert(0 <= path[i] < preps.len());
        assert(0 <= path[i + 1] < preps.len());
        lemma_touch_readings(preps[path[i]], preps[path[i + 1]], lines, ids, assisted, span);
    }
    assert(reading_chain(g, lines, ids, assisted, span, rpath));
}

#[verifier::rlimit(60)]
proof fn lemma_chain_same_label(
    cg: CompiledGroup,
    g: GroupDefinitionView,
    preps: Seq<Prepared>,
    cands: Seq<Vec<Candidate>>,
    mask: Seq<bool>,
    labels: Seq<usize>,
    lines: Seq<Seq<char>>,
    ids: Seq<PhysicalLineIdentity>,
    assisted: Seq<AssistedModifierObservation>,
    span: int,
    path: Seq<(int, int)>,
    a: int,
    b: int,
)
    requires
        preps_model(preps, lines, ids, assisted, span),
        cand_ctx(cg, g, preps, cands, mask, span),
        labels.len() == preps.len(),
        forall|x: int, y: int|
            0 <= x < preps.len() && 0 <= y < preps.len() && mask[x] && mask[y] && touch(#[trigger] preps[x], #[trigger] preps[y])
                ==> labels[x] == labels[y],
        reading_chain(g, lines, ids, assisted, span, path),
        0 <= a < preps.len(),
        mask[a],
        reading_of(preps[a]) == path[0],
        0 <= b < preps.len(),
        mask[b],
        reading_of(preps[b]) == path.last(),
    ensures
        labels[a] == labels[b],
    decreases path.len(),
{
    if path.len() == 1 {
        assert(prepared_ok(preps[a], lines, span));
        assert(prepared_ok(preps[b], lines, span));
        assert(ranges_overlap(preps[a].start as int, preps[a].count as int, preps[b].start as int, preps[b].count as int));
        lemma_touch_readings(preps[a], preps[b], lines, ids, assisted, span);
    } else {
        let shorter = path.drop_last();
        assert(reading_chain(g, lines, ids, assisted, span, shorter)) by {
            assert forall|i: int| 0 <= i < shorter.len() implies group_reads(g, lines, assisted, span, #[trigger] shorter[i]) by {
                assert(shorter[i] == path[i]);
            }
            assert forall|i: int| 0 <= i < shorter.len() - 1 implies readings_touch(
                lines.len() as int,
                ids,
                assisted,
                #[trigger] shorter[i],
                shorter[i + 1],
            ) by {
                assert(shorter[i] == path[i]);
                assert(shorter[i + 1] == path[i + 1]);
            }
        }
        let m = path.len() - 2;
        assert(group_reads(g, lines, assisted, span, path[m]));
        let o = lemma_reads_masked(cg, g, preps, cands, mask, lines, ids, assisted, span, path[m]);
        lemma_chain_same_label(cg, g, preps, cands, mask, labels, lines, ids, assisted, span, shorter, a, o);
        assert(readings_touch(lines.len() as int, ids, assisted, path[m], path[m + 1]));
        lemma_touch_readings(preps[o], preps[b], lines, ids, assisted, span);
        assert(touch(preps[o], preps[b]));
    }
}

proof fn lemma_satisfies_edge(
    cg: CompiledGroup,
    g: GroupDefinitionView,
    preps: Seq<Prepared>,
    cands: Seq<Vec<Candidate>>,
    mask: Seq<bool>,
    labels: Seq<usize>,
    edges: Seq<Vec<Edge>>,
    lines: Seq<Seq<char>>,
    ids: Seq<PhysicalLineIdentity>,
    assisted: Seq<AssistedModifierObservation>,
    span: int,
    k: int,
    r: (int, int),
) -> (o: int)
    requires
        preps_model(preps, lines, ids, assisted, span),
        cand_ctx(cg, g, preps, cands, mask, span),
        edges.len() == cands.len(),
        forall|c: int, x: int|
            0 <= c < edges.len() && 0 <= x < cands[c]@.len() && (#[trigger] cands[c]@[x]).numeric_ok ==> has_label(
                edges[c]@,
                labels[cands[c]@[x].obs as int],
            ),
        0 <= k < enabled_indices(g.conditions).len(),
        reading_satisfies(g.conditions[enabled_indices(g.conditions)[k]], lines, assisted, span, r),
    ensures
        0 <= o < preps.len(),
        mask[o],
        reading_of(preps[o]) == r,
        has_label(edges[k]@, labels[o]),
{
    let idx = enabled_indices(g.conditions);
    let c = g.conditions[idx[k]];
    let cc = cg.conditions@[k];
    assert(compiled_condition_of(cc, c, idx[k], span));
    let o = lemma_reading_prep(cg, g, preps, cands, mask, lines, ids, assisted, span, k, r);
    let p = preps[o];
    let x = choose|x: int| 0 <= x < cands[k]@.len() && (#[trigger] cands[k]@[x]).obs == o;
    let cand = cands[k]@[x];
    assert(candidate_ok(cand, cc, preps));
    assert(prepared_ok(p, lines, span));
    assert(prep_model_ok(p, lines, assisted));
    let n = slot_count(shape_of(c.template));
    let vals = reading_values(c, lines, assisted, r);
    match p.target {
        None => {},
        Some(t) => {
            let a = assisted_of(lines.len() as int, assisted, r);
            if slot_kinds(cc.matcher.shape()) == slot_kinds(affix_views(p.tokens@)) {
                assert(vals == crate::matching::slot_values(
                    crate::matching::lex(crate::matching::canonical_source(a.original_text@)),
                ));
            }
        },
    }
    assert(crate::matching::values_view(cand.values@) == vals);
    assert forall|j: int| 0 <= j < cand.slots@.len() implies (#[trigger] cand.slots@[j]).is_satisfied by {
        assert(cand.slots@[j].is_satisfied == constraint_holds(cc.constraints@[j], value_at(cand.values@, j)));
        assert(cc.constraints@[j] == padded(c.constraints, n)[j]);
        if 0 <= j < cand.values@.len() {
            assert(crate::matching::values_view(cand.values@)[j] == crate::matching::opt_units(cand.values@[j]));
        }
        assert(value_at(cand.values@, j) == shown(vals, j));
    }
    assert(cand.numeric_ok);
    o
}

proof fn lemma_count_some_same<A, B>(s: Seq<Option<A>>, t: Seq<Option<B>>)
    requires
        s.len() == t.len(),
        forall|i: int| 0 <= i < s.len() ==> (#[trigger] s[i] is Some) == (t[i] is Some),
    ensures
        count_some(s) == count_some(t),
    decreases s.len(),
{
    if s.len() > 0 {
        assert(s.last() is Some == t.last() is Some);
        lemma_count_some_same(s.drop_last(), t.drop_last());
    }
}

proof fn lemma_matched_total_count<B>(ces: Seq<ConditionEvaluation>, t: Seq<Option<B>>)
    requires
        ces.len() == t.len(),
        forall|i: int| 0 <= i < ces.len() ==> (#[trigger] ces[i]).is_matched == (t[i] is Some),
    ensures
        matched_total(ces) == count_some(t),
    decreases ces.len(),
{
    if ces.len() > 0 {
        assert(ces.last().is_matched == t.last() is Some);
        lemma_matched_total_count(ces.drop_last(), t.drop_last());
    }
}

/// A candidate's rank is the rank of the reading it stands for.
proof fn lemma_cand_rank(
    cand: Candidate,
    c: ConditionView,
    lines: Seq<Seq<char>>,
    assisted: Seq<AssistedModifierObservation>,
    r: (int, int),
)
    requires
        slots_shown(
            cand.slots@,
            padded(c.constraints, slot_count(shape_of(c.template))),
            reading_values(c, lines, assisted, r),
        ),
        cand.numeric_ok == all_satisfied(cand.slots@),
        cand.satisfied == count_true(sat_flags(cand.slots@)),
    ensures
        cand.numeric_ok == (forall|k: int|
            0 <= k < slot_holds(c, lines, assisted, r).len() ==> #[trigger] slot_holds(c, lines, assisted, r)[k]),
        cand.satisfied == count_true(slot_holds(c, lines, assisted, r)),
{
    let n = slot_count(shape_of(c.template));
    let h = slot_holds(c, lines, assisted, r);
    assert(padded(c.constraints, n).len() == n);
    assert(sat_flags(cand.slots@) =~= h);
    if all_satisfied(cand.slots@) {
        assert forall|k: int| 0 <= k < h.len() implies #[trigger] h[k] by {
            assert(cand.slots@[k].is_satisfied);
            assert(sat_flags(cand.slots@)[k]);
        }
    }
    if forall|k: int| 0 <= k < h.len() ==> #[trigger] h[k] {
        assert forall|k: int| 0 <= k < cand.slots@.len() implies (#[trigger] cand.slots@[k]).is_satisfied by {
            assert(h[k]);
            assert(sat_flags(cand.slots@)[k]);
        }
    }
}

/// A candidate that ranks at least as high as every other candidate of its
/// condition shows a reading that no fitting reading outranks.
proof fn lemma_near_miss(
    cg: CompiledGroup,
    g: GroupDefinitionView,
    preps: Seq<Prepared>,
    cands: Seq<Vec<Candidate>>,
    mask: Seq<bool>,
    lines: Seq<Seq<char>>,
    ids: Seq<PhysicalLineIdentity>,
    assisted: Seq<AssistedModifierObservation>,
    span: int,
    k: int,
    b: int,
)
    requires
        preps_model(preps, lines, ids, assisted, span),
        cand_ctx(cg, g, preps, cands, mask, span),
        0 <= k < enabled_indices(g.conditions).len(),
        0 <= b < cands[k]@.len(),
        forall|j: int| 0 <= j < cands[k]@.len() ==> key_le(#[trigger] cands[k]@[j], cands[k]@[b]),
    ensures
        forall|q: (int, int)|
            #[trigger] reading_fits(g.conditions[enabled_indices(g.conditions)[k]], lines, assisted, span, q)
                ==> ranks_no_higher(
                slot_holds(g.conditions[enabled_indices(g.conditions)[k]], lines, assisted, q),
                slot_holds(
                    g.conditions[enabled_indices(g.conditions)[k]],
                    lines,
                    assisted,
                    reading_of(preps[cands[k]@[b].obs as int]),
                ),
            ),
{
    let c = g.conditions[enabled_indices(g.conditions)[k]];
    let best = cands[k]@[b];
    assert(compiled_group_of(cg, g, span));
    assert(candidate_ok(best, cg.conditions@[k], preps));
    lemma_candidate_reads(cg, g, preps, lines, ids, assisted, span, k, best);
    let r = reading_of(preps[best.obs as int]);
    lemma_cand_rank(best, c, lines, assisted, r);
    assert forall|q: (int, int)| #[trigger] reading_fits(c, lines, assisted, span, q) implies ranks_no_higher(
        slot_holds(c, lines, assisted, q),
        slot_holds(c, lines, assisted, r),
    ) by {
        let o = lemma_reading_prep(cg, g, preps, cands, mask, lines, ids, assisted, span, k, q);
        let x = choose|x: int| 0 <= x < cands[k]@.len() && (#[trigger] cands[k]@[x]).obs == o;
        let other = cands[k]@[x];
        assert(candidate_ok(other, cg.conditions@[k], preps));
        lemma_candidate_reads(cg, g, preps, lines, ids, assisted, span, k, other);
        lemma_cand_rank(other, c, lines, assisted, q);
        assert(key_le(other, best));
    }
}

/// A satisfying reading within the physical modifier of a condition's
/// edge spans no fewer lines than the edge's reading, and starts no earlier
/// when it spans as many.
proof fn lemma_fewest_lines(
    cg: CompiledGroup,
    g: GroupDefinitionView,
    preps: Seq<Prepared>,
    cands: Seq<Vec<Candidate>>,
    mask: Seq<bool>,
    labels: Seq<usize>,
    edges: Seq<Edge>,
    lines: Seq<Seq<char>>,
    ids: Seq<PhysicalLineIdentity>,
    assisted: Seq<AssistedModifierObservation>,
    span: int,
    k: int,
    e: int,
    q: (int, int),
)
    requires
        preps_model(preps, lines, ids, assisted, span),
        cand_ctx(cg, g, preps, cands, mask, span),
        labels.len() == preps.len(),
        forall|x: int, y: int|
            0 <= x < preps.len() && 0 <= y < preps.len() && mask[x] && mask[y] && touch(#[trigger] preps[x], #[trigger] preps[y])
                ==> labels[x] == labels[y],
        0 <= k < enabled_indices(g.conditions).len(),
        edges_ok(edges, cands[k]@, labels, preps.len() as int),
        edges_least(edges, cands[k]@, labels, preps),
        0 <= e < edges.len(),
        reading_satisfies(g.conditions[enabled_indices(g.conditions)[k]], lines, assisted, span, q),
        one_modifier(g, lines, ids, assisted, span, q, reading_of(preps[cands[k]@[edges[e].cand as int].obs as int])),
    ensures
        fewest_lines_first(reading_of(preps[cands[k]@[edges[e].cand as int].obs as int]), q),
{
    let c = g.conditions[enabled_indices(g.conditions)[k]];
    let pa = cands[k]@[edges[e].cand as int].obs as int;
    let o = lemma_reading_prep(cg, g, preps, cands, mask, lines, ids, assisted, span, k, q);
    let x = choose|x: int| 0 <= x < cands[k]@.len() && (#[trigger] cands[k]@[x]).obs == o;
    let other = cands[k]@[x];
    assert(compiled_group_of(cg, g, span));
    assert(candidate_ok(other, cg.conditions@[k], preps));
    lemma_candidate_reads(cg, g, preps, lines, ids, assisted, span, k, other);
    lemma_cand_rank(other, c, lines, assisted, q);
    let h = slot_holds(c, lines, assisted, q);
    assert forall|j: int| 0 <= j < h.len() implies #[trigger] h[j] by {
        let n = slot_count(shape_of(c.template));
        assert(constraint_holds(padded(c.constraints, n)[j], shown(reading_values(c, lines, assisted, q), j)));
    }
    assert(other.numeric_ok);
    let path = choose|path: Seq<(int, int)>|
        #[trigger] reading_chain(g, lines, ids, assisted, span, path) && path[0] == q && path.last() == reading_of(preps[pa]);
    assert(mask[pa]);
    lemma_chain_same_label(cg, g, preps, cands, mask, labels, lines, ids, assisted, span, path, o, pa);
    assert(lines_first(preps[pa], preps[cands[k]@[x].obs as int]));
}

/// Every satisfied condition reports the reading on the fewest lines, then
/// the earliest, among those that satisfy it within its physical modifier.
proof fn lemma_group_fewest(
    cg: CompiledGroup,
    g: GroupDefinitionView,
    preps: Seq<Prepared>,
    cands: Seq<Vec<Candidate>>,
    mask: Seq<bool>,
    labels: Seq<usize>,
    edges: Seq<Vec<Edge>>,
    assigned: Seq<Option<usize>>,
    ge: ResultGroupEvaluation,
    lines: Seq<Seq<char>>,
    ids: Seq<PhysicalLineIdentity>,
    assisted: Seq<AssistedModifierObservation>,
    span: int,
)
    requires
        preps_model(preps, lines, ids, assisted, span),
        cand_ctx(cg, g, preps, cands, mask, span),
        labels.len() == preps.len(),
        forall|x: int, y: int|
            0 <= x < preps.len() && 0 <= y < preps.len() && mask[x] && mask[y] && touch(#[trigger] preps[x], #[trigger] preps[y])
                ==> labels[x] == labels[y],
        edges.len() == cands.len(),
        forall|k: int| 0 <= k < edges.len() ==> edges_ok(#[trigger] edges[k]@, cands[k]@, labels, preps.len() as int),
        forall|k: int| 0 <= k < edges.len() ==> edges_least(#[trigger] edges[k]@, cands[k]@, labels, preps),
        assigned.len() == cands.len(),
        forall|k: int| 0 <= k < assigned.len() && (#[trigger] assigned[k]) is Some ==> assigned[k].unwrap() < edges[k]@.len(),
        ge.conditions@.len() == cands.len(),
        forall|k: int|
            0 <= k < ge.conditions@.len() ==> reported(
                #[trigger] ge.conditions@[k],
                cg.conditions@[k],
                cands[k]@,
                edges[k]@,
                assigned[k],
                preps,
            ),
    ensures
        forall|k: int, q: (int, int)|
            0 <= k < ge.conditions@.len() && k < enabled_indices(g.conditions).len() && ge.conditions@[k].is_matched
                && reading_satisfies(g.conditions[enabled_indices(g.conditions)[k]], lines, assisted, span, q)
                && #[trigger] one_modifier(g, lines, ids, assisted, span, q, reported_choice(ge)[k].unwrap())
                ==> fewest_lines_first(reported_choice(ge)[k].unwrap(), q),
{
    assert forall|k: int, q: (int, int)|
        0 <= k < ge.conditions@.len() && k < enabled_indices(g.conditions).len() && ge.conditions@[k].is_matched
            && reading_satisfies(g.conditions[enabled_indices(g.conditions)[k]], lines, assisted, span, q)
            && #[trigger] one_modifier(g, lines, ids, assisted, span, q, reported_choice(ge)[k].unwrap())
            implies fewest_lines_first(reported_choice(ge)[k].unwrap(), q) by {
        assert(reported(ge.conditions@[k], cg.conditions@[k], cands[k]@, edges[k]@, assigned[k], preps));
        let e = assigned[k].unwrap() as int;
        assert(edges_ok(edges[k]@, cands[k]@, labels, preps.len() as int));
        assert(edges_least(edges[k]@, cands[k]@, labels, preps));
        lemma_fewest_lines(cg, g, preps, cands, mask, labels, edges[k]@, lines, ids, assisted, span, k, e, q);
    }
}

#[verifier::rlimit(60)]
proof fn lemma_group_optimal(
    cg: CompiledGroup,
    g: GroupDefinitionView,
    i: int,
    preps: Seq<Prepared>,
    cands: Seq<Vec<Candidate>>,
    mask: Seq<bool>,
    labels: Seq<usize>,
    edges: Seq<Vec<Edge>>,
    owner: Seq<Option<usize>>,
    assigned: Seq<Option<usize>>,
    ge: ResultGroupEvaluation,
    lines: Seq<Seq<char>>,
    ids: Seq<PhysicalLineIdentity>,
    assisted: Seq<AssistedModifierObservation>,
    span: int,
)
    requires
        preps_model(preps, lines, ids, assisted, span),
        cand_ctx(cg, g, preps, cands, mask, span),
        labels.len() == preps.len(),
        forall|x: int, y: int|
            0 <= x < preps.len() && 0 <= y < preps.len() && mask[x] && mask[y] && touch(#[trigger] preps[x], #[trigger] preps[y])
                ==> labels[x] == labels[y],
        labels_joined(preps, mask, labels),
        edges.len() == cands.len(),
        forall|k: int| 0 <= k < edges.len() ==> edges_ok(#[trigger] edges[k]@, cands[k]@, labels, preps.len() as int),
        forall|c: int, x: int|
            0 <= c < edges.len() && 0 <= x < cands[c]@.len() && (#[trigger] cands[c]@[x]).numeric_ok ==> has_label(
                edges[c]@,
                labels[cands[c]@[x].obs as int],
            ),
        assignment_ok(edges, owner, assigned),
        forall|k: int| 0 <= k < edges.len() ==> edges_least(#[trigger] edges[k]@, cands[k]@, labels, preps),
        forall|k: int| 0 <= k < assigned.len() && (#[trigger] assigned[k]) is Some ==> assigned[k].unwrap() < edges[k]@.len(),
        maximum(edges, assigned),
        assigned.len() <= usize::MAX,
        group_result_ok(ge, i, g, lines, span),
        ge.conditions@.len() == cands.len(),
        forall|k: int|
            0 <= k < ge.conditions@.len() ==> reported(
                #[trigger] ge.conditions@[k],
                cg.conditions@[k],
                cands[k]@,
                edges[k]@,
                assigned[k],
                preps,
            ),
    ensures
        group_optimal(ge, g, lines, ids, assisted, span),
{
    lemma_group_fewest(cg, g, preps, cands, mask, labels, edges, assigned, ge, lines, ids, assisted, span);
    let idx = enabled_indices(g.conditions);
    let ces = ge.conditions@;
    let chosen = reported_choice(ge);
    assert(ces.len() == idx.len());
    // Each satisfied condition's reading is the candidate it was given.
    assert forall|k: int| 0 <= k < ces.len() && (#[trigger] ces[k]).is_matched implies ({
        let e = assigned[k].unwrap() as int;
        let cand = cands[k]@[edges[k]@[e].cand as int];
        &&& 0 <= cand.obs < preps.len()
        &&& mask[cand.obs as int]
        &&& reading_of(preps[cand.obs as int]) == chosen[k].unwrap()
        &&& edges[k]@[e].label == labels[cand.obs as int]
        &&& reading_satisfies(g.conditions[idx[k]], lines, assisted, span, chosen[k].unwrap())
    }) by {
        assert(reported(ces[k], cg.conditions@[k], cands[k]@, edges[k]@, assigned[k], preps));
        let e = assigned[k].unwrap() as int;
        assert(edges_ok(edges[k]@, cands[k]@, labels, preps.len() as int));
        let ci = edges[k]@[e].cand as int;
        let cand = cands[k]@[ci];
        assert(candidate_ok(cand, cg.conditions@[k], preps));
        assert(mask[cand.obs as int]);
        lemma_candidate_reads(cg, g, preps, lines, ids, assisted, span, k, cand);
    }
    // The reported readings are a valid choice.
    assert forall|a: int, b: int|
        0 <= a < chosen.len() && 0 <= b < chosen.len() && a != b && (#[trigger] chosen[a]) is Some && (#[trigger] chosen[b]) is Some
            implies !one_modifier(g, lines, ids, assisted, span, chosen[a].unwrap(), chosen[b].unwrap()) by {
        assert(ces[a].is_matched && ces[b].is_matched);
        let ea = assigned[a].unwrap() as int;
        let eb = assigned[b].unwrap() as int;
        let pa = cands[a]@[edges[a]@[ea].cand as int].obs as int;
        let pb = cands[b]@[edges[b]@[eb].cand as int].obs as int;
        assert(reported(ces[a], cg.conditions@[a], cands[a]@, edges[a]@, assigned[a], preps));
        assert(reported(ces[b], cg.conditions@[b], cands[b]@, edges[b]@, assigned[b], preps));
        assert(assigned[a] is Some && assigned[b] is Some);
        lemma_assignment_distinct(edges, owner, assigned, a, b);
        if one_modifier(g, lines, ids, assisted, span, chosen[a].unwrap(), chosen[b].unwrap()) {
            let path = choose|path: Seq<(int, int)>|
                #[trigger] reading_chain(g, lines, ids, assisted, span, path) && path[0] == chosen[a].unwrap() && path.last()
                    == chosen[b].unwrap();
            lemma_chain_same_label(cg, g, preps, cands, mask, labels, lines, ids, assisted, span, path, pa, pb);
        }
    }
    assert(valid_choice(g, lines, ids, assisted, span, chosen));
    // What every condition reports.
    assert forall|k: int| 0 <= k < ces.len() && k < idx.len() implies observation_reported(
        #[trigger] ces[k],
        g.conditions[idx[k]],
        lines,
        assisted,
        span,
    ) by {
        assert(reported(ces[k], cg.conditions@[k], cands[k]@, edges[k]@, assigned[k], preps));
        assert(compiled_condition_of(cg.conditions@[k], g.conditions[idx[k]], idx[k], span));
        if assigned[k] is Some {
            let e = assigned[k].unwrap() as int;
            assert(edges_ok(edges[k]@, cands[k]@, labels, preps.len() as int));
            let cand = cands[k]@[edges[k]@[e].cand as int];
            assert(candidate_ok(cand, cg.conditions@[k], preps));
            lemma_candidate_reads(cg, g, preps, lines, ids, assisted, span, k, cand);
        } else {
            match ces[k].observation {
                Some(o) => {
                    let b = choose|b: int|
                        0 <= b < cands[k]@.len() && o.start_line_index == preps[(#[trigger] cands[k]@[b]).obs as int].start
                            && o.physical_line_count == preps[cands[k]@[b].obs as int].count && ces[k].numeric_slots@
                            == cands[k]@[b].slots@ && o.numeric_values@ == cands[k]@[b].values@ && forall|j: int|
                            0 <= j < cands[k]@.len() ==> key_le(#[trigger] cands[k]@[j], cands[k]@[b]);
                    assert(candidate_ok(cands[k]@[b], cg.conditions@[k], preps));
                    lemma_candidate_reads(cg, g, preps, lines, ids, assisted, span, k, cands[k]@[b]);
                    lemma_near_miss(cg, g, preps, cands, mask, lines, ids, assisted, span, k, b);
                },
                None => {
                    assert forall|r: (int, int)| !#[trigger] reading_fits(g.conditions[idx[k]], lines, assisted, span, r) by {
                        if reading_fits(g.conditions[idx[k]], lines, assisted, span, r) {
                            let o = lemma_reading_prep(cg, g, preps, cands, mask, lines, ids, assisted, span, k, r);
                            let x = choose|x: int| 0 <= x < cands[k]@.len() && (#[trigger] cands[k]@[x]).obs == o;
                        }
                    }
                },
            }
        }
    }
    // The reported count.
    lemma_count_some_same(chosen, assigned);
    lemma_matched_total_count(ces, assigned);
    // No valid choice satisfies more conditions.
    assert forall|choice: Seq<Option<(int, int)>>| #[trigger] valid_choice(g, lines, ids, assisted, span, choice) implies count_some(
        choice,
    ) <= ge.matched_count by {
        let pick = |r: (int, int)| choose|o: int| 0 <= o < preps.len() && mask[o] && reading_of(preps[o]) == r;
        let tau = Seq::new(
            choice.len(),
            |k: int|
                match choice[k] {
                    Some(r) => Some(labels[pick(r)]),
                    None => None,
                },
        );
        assert forall|k: int| 0 <= k < choice.len() && (#[trigger] choice[k]) is Some implies {
            let r = choice[k].unwrap();
            &&& 0 <= pick(r) < preps.len()
            &&& mask[pick(r)]
            &&& reading_of(preps[pick(r)]) == r
            &&& has_label(edges[k]@, labels[pick(r)])
        } by {
            let r = choice[k].unwrap();
            assert(reading_satisfies(g.conditions[idx[k]], lines, assisted, span, r));
            assert(group_reads(g, lines, assisted, span, r));
            let o = lemma_reads_masked(cg, g, preps, cands, mask, lines, ids, assisted, span, r);
            let o2 = lemma_satisfies_edge(cg, g, preps, cands, mask, labels, edges, lines, ids, assisted, span, k, r);
            let one = seq![r];
            assert(reading_chain(g, lines, ids, assisted, span, one));
            lemma_chain_same_label(cg, g, preps, cands, mask, labels, lines, ids, assisted, span, one, pick(r), o2);
        }
        assert forall|k: int| 0 <= k < tau.len() && (#[trigger] tau[k]) is Some implies exists|e: int|
            0 <= e < edges[k]@.len() && (#[trigger] edges[k]@[e]).label == tau[k].unwrap() by {
            assert(choice[k] is Some);
        }
        assert forall|a: int, b: int|
            0 <= a < tau.len() && 0 <= b < tau.len() && a != b && (#[trigger] tau[a]) is Some && (#[trigger] tau[b]) is Some
                implies tau[a] != tau[b] by {
            assert(choice[a] is Some && choice[b] is Some);
            let ra = choice[a].unwrap();
            let rb = choice[b].unwrap();
            if tau[a] == tau[b] {
                assert(labels[pick(ra)] == labels[pick(rb)]);
                lemma_joined_one_modifier(cg, g, preps, cands, mask, lines, ids, assisted, span, pick(ra), pick(rb));
            }
        }
        assert(label_matching(edges, tau));
        lemma_count_some_same(tau, choice);
    }
}

/// Evaluates one acceptable result against prepared observations.
fn evaluate_group(
    cg: &CompiledGroup,
    i: usize,
    preps: &Vec<Prepared>,
    g: Ghost<GroupDefinitionView>,
    lines: Ghost<Seq<Seq<char>>>,
    ids: Ghost<Seq<PhysicalLineIdentity>>,
    assisted: Ghost<Seq<AssistedModifierObservation>>,
    span: usize,
) -> (ge: ResultGroupEvaluation)
    requires
        i < usize::MAX,
        1 <= span <= 8,
        compiled_group_of(*cg, g@, span as int),
        forall|p: int| 0 <= p < preps@.len() ==> prepared_ok(#[trigger] preps@[p], lines@, span as int),
        forall|p: int| 0 <= p < preps@.len() ==> bands_ok(#[trigger] preps@[p], ids@, assisted@),
        lines@.len() + assisted@.len() <= usize::MAX ==> preps_model(preps@, lines@, ids@, assisted@, span as int),
    ensures
        group_result_ok(ge, i as int, g@, lines@, span as int),
        group_bands_ok(ge, lines@.len() as int, ids@, assisted@),
        lines@.len() + assisted@.len() <= usize::MAX ==> group_optimal(ge, g@, lines@, ids@, assisted@, span as int),
{
    let cands = all_candidates(cg, preps);
    assert forall|k: int, x: int| 0 <= k < cands@.len() && 0 <= x < cands@[k]@.len() implies (#[trigger] cands@[k]@[x]).obs < preps@.len() by {
        assert(candidate_ok(cands@[k]@[x], cg.conditions@[k], preps@));
    }
    let mask = candidate_mask(&cands, preps.len());
    let labels = component_labels(preps, &mask);
    let edges = all_edges(&cands, &labels, preps);
    let order = condition_order(&cg.conditions);
    let (assigned, owner) = assign_all(&edges, &order, preps.len());
    assert forall|k: int| 0 <= k < assigned@.len() && (#[trigger] assigned@[k]) is Some implies assigned@[k].unwrap() < edges@[k]@.len() by {}
    let (conditions, matched) = report_conditions(cg, &cands, &edges, &assigned, preps, Ghost(labels@));
    let enabled = cg.conditions.len();
    let name = group_name(cg, i);
    let ge = ResultGroupEvaluation {
        group_index: i,
        name,
        mode: cg.mode,
        required_count: cg.required_count,
        matched_count: matched,
        is_match: enabled > 0 && matched >= cg.required_count,
        conditions,
    };
    proof {
        let idx = enabled_indices(g@.conditions);
        assert forall|k: int| 0 <= k < idx.len() implies condition_result_ok(
            #[trigger] ge.conditions@[k],
            g@.conditions[idx[k]],
            idx[k],
            lines@,
            span as int,
        ) by {
            assert(compiled_condition_of(cg.conditions@[k], g@.conditions[idx[k]], idx[k], span as int));
            assert(edges_ok(edges@[k]@, cands@[k]@, labels@, preps@.len() as int));
            assert forall|x: int| 0 <= x < cands@[k]@.len() implies candidate_ok(#[trigger] cands@[k]@[x], cg.conditions@[k], preps@) by {}
            lemma_condition_result(
                ge.conditions@[k],
                cg.conditions@[k],
                g@.conditions[idx[k]],
                idx[k],
                cands@[k]@,
                edges@[k]@,
                assigned@[k],
                preps@,
                lines@,
                span as int,
                labels@,
            );
        }
        lemma_one_modifier(
            ge.conditions@,
            cg.conditions@,
            cands@,
            edges@,
            assigned@,
            owner@,
            labels@,
            mask@,
            preps@,
        );
        assert forall|k: int|
            0 <= k < ge.conditions@.len() && (#[trigger] ge.conditions@[k]).is_matched implies observation_bands_ok(
            ge.conditions@[k].observation.unwrap(),
            lines@.len() as int,
            ids@,
            assisted@,
        ) by {
            assert(reported(ge.conditions@[k], cg.conditions@[k], cands@[k]@, edges@[k]@, assigned@[k], preps@));
            assert(edges_ok(edges@[k]@, cands@[k]@, labels@, preps@.len() as int));
            let e = assigned@[k].unwrap() as int;
            let ci = edges@[k]@[e].cand as int;
            let cand = cands@[k]@[ci];
            assert(candidate_ok(cand, cg.conditions@[k], preps@));
            let p = preps@[cand.obs as int];
            assert(prepared_ok(p, lines@, span as int));
            assert(bands_ok(p, ids@, assisted@));
        }
        if lines@.len() + assisted@.len() <= usize::MAX {
            assert(cand_ctx(*cg, g@, preps@, cands@, mask@, span as int));
            lemma_group_optimal(
                *cg,
                g@,
                i as int,
                preps@,
                cands@,
                mask@,
                labels@,
                edges@,
                owner@,
                assigned@,
                ge,
                lines@,
                ids@,
                assisted@,
                span as int,
            );
        }
    }
    ge
}

impl CompiledRuleSet {
    /// Evaluates physical lines read off an item, each line its own modifier
    /// unless it joins its neighbours into a wrapped one.
    pub fn evaluate(&self, physical_lines: &[String]) -> (r: RuleEvaluationResult)
        ensures
            evaluation_ok(self.source(), self.line_span(), crate::text::string_views(physical_lines@), r),
            evaluation_optimal(
                self.source(),
                self.line_span(),
                crate::text::string_views(physical_lines@),
                Seq::empty(),
                Seq::empty(),
                r,
            ),
    {
        let assisted: Vec<AssistedModifierObservation> = Vec::new();
        let identities: Vec<PhysicalLineIdentity> = Vec::new();
        let _count = physical_lines.len();
        assert(identities@ =~= Seq::<PhysicalLineIdentity>::empty());
        assert(assisted@ =~= Seq::<AssistedModifierObservation>::empty());
        self.evaluate_with_identity(physical_lines, assisted.as_slice(), identities.as_slice())
    }

    /// Evaluates physical lines together with assisted readings and the band
    /// each line belongs to. Every acceptable result is reported; the first
    /// one met is the match. Within an acceptable result a physical modifier
    /// (lines that overlap, or that share a band) satisfies at most one
    /// condition.
    pub fn evaluate_with_identity(
        &self,
        physical_lines: &[String],
        assisted_observations: &[AssistedModifierObservation],
        physical_line_identities: &[PhysicalLineIdentity],
    ) -> (r: RuleEvaluationResult)
        ensures
            identity_evaluation(
                self.source(),
                self.line_span(),
                crate::text::string_views(physical_lines@),
                physical_line_identities@,
                assisted_observations@,
                r,
            ),
    {
        proof {
            use_type_invariant(self);
        }
        let span = self.maximum_physical_line_span;
        let ghost lines = crate::text::string_views(physical_lines@);
        let preps = prepare_observations(physical_lines, assisted_observations, physical_line_identities, span);
        assert(physical_lines@.len() + assisted_observations@.len() <= usize::MAX ==> preps_model(
            preps@,
            lines,
            physical_line_identities@,
            assisted_observations@,
            span as int,
        ));
        let n = self.groups.len();
        let mut groups: Vec<ResultGroupEvaluation> = Vec::new();
        let mut matched: Option<usize> = None;
        let mut g: usize = 0;
        while g < n
            invariant
                n == self.groups@.len(),
                n == self.source().groups.len(),
                span == self.line_span(),
                1 <= span <= 8,
                lines == crate::text::string_views(physical_lines@),
                forall|x: int| 0 <= x < n ==> compiled_group_of(#[trigger] self.groups@[x], self.source().groups[x], span as int),
                forall|p: int| 0 <= p < preps@.len() ==> prepared_ok(#[trigger] preps@[p], lines, span as int),
                forall|p: int|
                    0 <= p < preps@.len() ==> bands_ok(
                        #[trigger] preps@[p],
                        physical_line_identities@,
                        assisted_observations@,
                    ),
                forall|x: int|
                    0 <= x < g ==> group_bands_ok(
                        #[trigger] groups@[x],
                        physical_lines@.len() as int,
                        physical_line_identities@,
                        assisted_observations@,
                    ),
                physical_lines@.len() + assisted_observations@.len() <= usize::MAX ==> preps_model(
                    preps@,
                    lines,
                    physical_line_identities@,
                    assisted_observations@,
                    span as int,
                ),
                physical_lines@.len() + assisted_observations@.len() <= usize::MAX ==> forall|x: int|
                    0 <= x < g ==> group_optimal(
                        #[trigger] groups@[x],
                        self.source().groups[x],
                        lines,
                        physical_line_identities@,
                        assisted_observations@,
                        span as int,
                    ),
                g <= n,
                groups@.len() == g,
                forall|x: int|
                    0 <= x < g ==> group_result_ok(
                        #[trigger] groups@[x],
                        x,
                        self.source().groups[x],
                        lines,
                        span as int,
                    ),
                first_met(groups@, matched),
            decreases n - g,
        {
            assert(compiled_group_of(self.groups@[g as int], self.source().groups[g as int], span as int));
            let ge = evaluate_group(
                &self.groups[g],
                g,
                &preps,
                Ghost(self.source().groups[g as int]),
                Ghost(lines),
                Ghost(physical_line_identities@),
                Ghost(assisted_observations@),
                span,
            );
            let met = ge.is_match;
            let ghost before = groups@;
            groups.push(ge);
            assert(groups@.drop_last() =~= before);
            if matched.is_none() && met {
                matched = Some(g);
            }
            assert(first_met(groups@, matched)) by {
                match matched {
                    Some(m) => {
                        assert(groups@[m as int] == if m < g { before[m as int] } else { groups@[g as int] });
                        assert forall|j: int| 0 <= j < m implies !(#[trigger] groups@[j]).is_match by {
                            assert(groups@[j] == before[j]);
                        }
                    },
                    None => {
                        assert forall|j: int| 0 <= j < groups@.len() implies !(#[trigger] groups@[j]).is_match by {
                            if j < g {
                                assert(groups@[j] == before[j]);
                            }
                        }
                    },
                }
            }
            g = g + 1;
        }
        RuleEvaluationResult { is_match: matched.is_some(), matched_group_index: matched, groups }
    }
}

/// Observation `o` reads line `k` of the `line_count` physical lines.
pub open spec fn reads_line(o: ModifierObservation, k: int, line_count: int) -> bool {
    &&& o.start_line_index < line_count
    &&& o.start_line_index <= k < o.start_line_index + o.physical_line_count
}

/// Lines that the identities place in one band are one physical modifier:
/// within an acceptable result, when one condition is satisfied by a reading
/// that takes in a line of a band, no other condition is satisfied by a
/// reading that takes in a line of the same band.
pub proof fn one_band_satisfies_one_condition(
    source: DefinitionView,
    span: int,
    lines: Seq<Seq<char>>,
    ids: Seq<PhysicalLineIdentity>,
    assisted: Seq<AssistedModifierObservation>,
    r: RuleEvaluationResult,
    g: int,
    a: int,
    b: int,
    ka: int,
    kb: int,
)
    requires
        evaluation_ok(source, span, lines, r),
        identity_respected(r, lines.len() as int, ids, assisted),
        0 <= g < r.groups@.len(),
        0 <= a < r.groups@[g].conditions@.len(),
        0 <= b < r.groups@[g].conditions@.len(),
        a != b,
        r.groups@[g].conditions@[a].is_matched,
        reads_line(r.groups@[g].conditions@[a].observation.unwrap(), ka, lines.len() as int),
        reads_line(r.groups@[g].conditions@[b].observation.unwrap(), kb, lines.len() as int),
        band_of(ids, ka) is Some,
        band_of(ids, kb) is Some,
        trim(band_of(ids, ka).unwrap()) == trim(band_of(ids, kb).unwrap()),
        trim(band_of(ids, ka).unwrap()).len() > 0,
    ensures
        !r.groups@[g].conditions@[b].is_matched,
{
    let ge = r.groups@[g];
    assert(group_result_ok(ge, g, source.groups[g], lines, span));
    assert(group_bands_ok(ge, lines.len() as int, ids, assisted));
    if ge.conditions@[b].is_matched {
        let oa = ge.conditions@[a].observation.unwrap();
        let ob = ge.conditions@[b].observation.unwrap();
        let band = trim(band_of(ids, ka).unwrap());
        assert(observation_bands_ok(oa, lines.len() as int, ids, assisted));
        assert(observation_bands_ok(ob, lines.len() as int, ids, assisted));
        let bands_a = crate::text::string_views(oa.physical_band_ids@);
        let bands_b = crate::text::string_views(ob.physical_band_ids@);
        assert(band_listed(bands_a, band_of(ids, ka).unwrap()));
        assert(band_listed(bands_b, band_of(ids, kb).unwrap()));
        let i = choose|i: int| 0 <= i < bands_a.len() && bands_a[i] == band;
        let j = choose|j: int| 0 <= j < bands_b.len() && bands_b[j] == band;
        assert(shares_band(bands_a, bands_b));
        assert(one_modifier_per_condition(ge.conditions@));
    }
}

/// An assisted reading and the lines of its band are one physical modifier:
/// when a condition is satisfied by an assisted reading whose band (as every
/// assisted reading with that text gives it) is the band of line `k`, no
/// other condition of that acceptable result is satisfied by a reading that
/// takes in line `k`.
pub proof fn assisted_reading_and_its_lines_satisfy_one_condition(
    source: DefinitionView,
    span: int,
    lines: Seq<Seq<char>>,
    ids: Seq<PhysicalLineIdentity>,
    assisted: Seq<AssistedModifierObservation>,
    r: RuleEvaluationResult,
    g: int,
    a: int,
    b: int,
    k: int,
)
    requires
        evaluation_ok(source, span, lines, r),
        identity_respected(r, lines.len() as int, ids, assisted),
        0 <= g < r.groups@.len(),
        0 <= a < r.groups@[g].conditions@.len(),
        0 <= b < r.groups@[g].conditions@.len(),
        a != b,
        r.groups@[g].conditions@[a].is_matched,
        r.groups@[g].conditions@[a].observation.unwrap().start_line_index >= lines.len(),
        band_of(ids, k) is Some,
        trim(band_of(ids, k).unwrap()).len() > 0,
        forall|x: int|
            0 <= x < assisted.len() && trim((#[trigger] assisted[x]).original_text@)
                == r.groups@[g].conditions@[a].observation.unwrap().original_text@ ==> trim(
                assisted[x].physical_band_id@,
            ) == trim(band_of(ids, k).unwrap()),
        reads_line(r.groups@[g].conditions@[b].observation.unwrap(), k, lines.len() as int),
    ensures
        !r.groups@[g].conditions@[b].is_matched,
{
    let ge = r.groups@[g];
    assert(group_result_ok(ge, g, source.groups[g], lines, span));
    assert(group_bands_ok(ge, lines.len() as int, ids, assisted));
    if ge.conditions@[b].is_matched {
        let oa = ge.conditions@[a].observation.unwrap();
        let ob = ge.conditions@[b].observation.unwrap();
        let band = trim(band_of(ids, k).unwrap());
        assert(observation_bands_ok(oa, lines.len() as int, ids, assisted));
        assert(observation_bands_ok(ob, lines.len() as int, ids, assisted));
        let bands_a = crate::text::string_views(oa.physical_band_ids@);
        let bands_b = crate::text::string_views(ob.physical_band_ids@);
        let x = choose|x: int| 0 <= x < assisted.len() && from_assisted(bands_a, oa.original_text@, #[trigger] assisted[x]);
        assert(bands_a.contains(band));
        assert(band_listed(bands_b, band_of(ids, k).unwrap()));
        let i = choose|i: int| 0 <= i < bands_a.len() && bands_a[i] == band;
        let j = choose|j: int| 0 <= j < bands_b.len() && bands_b[j] == band;
        assert(shares_band(bands_a, bands_b));
        assert(one_modifier_per_condition(ge.conditions@));
    }
}

/// An acceptable result is met exactly when it has an enabled condition and
/// enough of its enabled conditions (one for `Any`, every one for `All`, the
/// chosen count for `AtLeast`) can each be satisfied by a reading of its own,
/// no two of those readings being one physical modifier.
pub proof fn met_exactly_when_enough_conditions_hold(
    source: DefinitionView,
    span: int,
    lines: Seq<Seq<char>>,
    ids: Seq<PhysicalLineIdentity>,
    assisted: Seq<AssistedModifierObservation>,
    r: RuleEvaluationResult,
    g: int,
)
    requires
        evaluation_ok(source, span, lines, r),
        evaluation_optimal(source, span, lines, ids, assisted, r),
        0 <= g < r.groups@.len(),
    ensures
        r.groups@[g].is_match <==> (enabled_indices(source.groups[g].conditions).len() > 0 && exists|choice: Seq<Option<(int, int)>>|
            #[trigger] valid_choice(source.groups[g], lines, ids, assisted, span, choice) && count_some(choice) >= required_for(
                source.groups[g].mode,
                source.groups[g].required_count,
                enabled_count(source.groups[g].conditions),
            )),
{
    let ge = r.groups@[g];
    assert(group_result_ok(ge, g, source.groups[g], lines, span));
    assert(group_optimal(ge, source.groups[g], lines, ids, assisted, span));
    if ge.is_match {
        assert(valid_choice(source.groups[g], lines, ids, assisted, span, reported_choice(ge)));
    }
}

} // verus!
