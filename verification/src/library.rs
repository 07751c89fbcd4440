//! The personal rule library: groups saved for reuse, the limits that keep
//! the library and the saved rules importable, and the checks an entry
//! passes before it is stored.
use vstd::prelude::*;
use vstd::utf8::encode_utf8;

use crate::ocr_language::{ascii_lower_char, ascii_lowered, lower_ascii};
use crate::matching::{DEFAULT_MAXIMUM_PHYSICAL_LINE_SPAN, MAXIMUM_SUPPORTED_PHYSICAL_LINE_SPAN};
use crate::rules::{
    condition_views, definition_errors, joined_messages, problem_from, AcceptableResultGroup, AffixCondition,
    CompiledRuleSet, ConditionView, DefinitionView, GroupDefinitionView, NumericConstraint, NumericConstraintMode,
    ResultGroupMode,
    RuleSetDefinition, CURRENT_SCHEMA_VERSION, MAXIMUM_SAVED_CONDITIONS, MAXIMUM_SAVED_GROUPS,
};
use crate::text::{
    chars_of, contains, decimal, digit_char, digits_value, has_infix, is_whitespace, is_ws, lowercase_text, push_all,
    push_decimal, push_str_chars, same_chars, slice_vec, str_to_lowercase, string_of, trim, trim_chars,
};

verus! {

/// Most entries a library holds.
pub const MAXIMUM_LIBRARY_ENTRIES: usize = 4096;

/// Most conditions across all entries of a library.
pub const MAXIMUM_LIBRARY_CONDITIONS: usize = 8192;

/// Which game an entry was saved for.
#[derive(Clone, Copy, Debug, PartialEq, Eq, Structural)]
pub enum GameProfile {
    Poe1,
    Poe2,
}

/// A group saved for reuse: one modifier, or a whole plan of them.
#[derive(Clone, Debug, PartialEq, Eq)]
pub struct LibraryEntry {
    pub name: String,
    pub category: String,
    pub game: GameProfile,
    pub language: String,
    pub group: AcceptableResultGroup,
    pub is_plan: bool,
}

pub struct EntryView {
    pub name: Seq<char>,
    pub category: Seq<char>,
    pub game: GameProfile,
    pub language: Seq<char>,
    pub group: GroupDefinitionView,
    pub is_plan: bool,
}

impl View for LibraryEntry {
    type V = EntryView;

    open spec fn view(&self) -> EntryView {
        EntryView {
            name: self.name@,
            category: self.category@,
            game: self.game,
            language: self.language@,
            group: self.group@,
            is_plan: self.is_plan,
        }
    }
}

pub open spec fn entry_views(v: Seq<LibraryEntry>) -> Seq<EntryView> {
    v.map_values(|e: LibraryEntry| e@)
}

/// Conditions across the entries.
pub open spec fn entry_conditions(v: Seq<EntryView>) -> nat
    decreases v.len(),
{
    if v.len() == 0 {
        0
    } else {
        entry_conditions(v.drop_last()) + v.last().group.conditions.len()
    }
}

/// Conditions across the groups.
pub open spec fn group_conditions(v: Seq<GroupDefinitionView>) -> nat
    decreases v.len(),
{
    if v.len() == 0 {
        0
    } else {
        group_conditions(v.drop_last()) + v.last().conditions.len()
    }
}

/// The untouched row a new group starts with: one enabled condition with
/// no name, template or constraint.
pub open spec fn pristine(g: GroupDefinitionView) -> bool {
    &&& g.conditions.len() == 1
    &&& g.conditions[0].name.len() == 0
    &&& g.conditions[0].template.len() == 0
    &&& g.conditions[0].constraints.len() == 0
    &&& g.conditions[0].enabled
}

/// The group holds only the untouched default row, which an import may
/// replace.
pub fn has_pristine_placeholder(group: &AcceptableResultGroup) -> (b: bool)
    ensures
        b == pristine(group@),
{
    if group.conditions.len() != 1 {
        return false;
    }
    let c = &group.conditions[0];
    let name = chars_of(c.name.as_str());
    let template = chars_of(c.template.as_str());
    name.len() == 0 && template.len() == 0 && c.numeric_constraints.len() == 0 && c.enabled
}

/// Whether the saved rules can take `extra_groups` more groups and
/// `extra_conditions` more conditions once `replaced_conditions` placeholder
/// rows have been dropped.
pub fn saved_rule_growth_fits(
    groups: usize,
    conditions: usize,
    extra_groups: usize,
    extra_conditions: usize,
    replaced_conditions: usize,
) -> (b: bool)
    ensures
        b == (groups + extra_groups <= MAXIMUM_SAVED_GROUPS && (if conditions >= replaced_conditions {
            conditions - replaced_conditions
        } else {
            0
        }) + extra_conditions <= MAXIMUM_SAVED_CONDITIONS),
{
    groups.saturating_add(extra_groups) <= MAXIMUM_SAVED_GROUPS && conditions.saturating_sub(
        replaced_conditions,
    ).saturating_add(extra_conditions) <= MAXIMUM_SAVED_CONDITIONS
}

/// Whether the library stays within its limits after `extra_entries` more
/// entries with `extra_conditions` more conditions.
pub open spec fn library_fits(existing: Seq<EntryView>, extra_entries: int, extra_conditions: int) -> bool {
    existing.len() + extra_entries <= MAXIMUM_LIBRARY_ENTRIES && entry_conditions(existing) + extra_conditions
        <= MAXIMUM_LIBRARY_CONDITIONS
}

/// Counts the conditions of the entries.
fn total_conditions(entries: &[LibraryEntry]) -> (r: usize)
    requires
        entry_conditions(entry_views(entries@)) <= usize::MAX,
    ensures
        r == entry_conditions(entry_views(entries@)),
{
    let n = entries.len();
    let mut total: usize = 0;
    let mut i: usize = 0;
    while i < n
        invariant
            n == entries@.len(),
            i <= n,
            entry_conditions(entry_views(entries@)) <= usize::MAX,
            total == entry_conditions(entry_views(entries@.take(i as int))),
        decreases n - i,
    {
        let ghost t = entry_views(entries@.take(i + 1));
        assert(t.drop_last() =~= entry_views(entries@.take(i as int)));
        proof {
            lemma_entry_conditions_prefix(entry_views(entries@), i + 1);
            assert(entry_views(entries@).take(i + 1) =~= t);
        }
        total = total + entries[i].group.conditions.len();
        i = i + 1;
    }
    assert(entries@.take(n as int) =~= entries@);
    total
}

/// A prefix holds no more conditions than the whole.
proof fn lemma_entry_conditions_prefix(v: Seq<EntryView>, k: int)
    requires
        0 <= k <= v.len(),
    ensures
        entry_conditions(v.take(k)) <= entry_conditions(v),
    decreases v.len(),
{
    if k < v.len() {
        assert(v.drop_last().take(k) =~= v.take(k));
        lemma_entry_conditions_prefix(v.drop_last(), k);
    } else {
        assert(v.take(k) =~= v);
    }
}

/// Counts the conditions of the groups, stopping once past the library's
/// limit.
fn capped_group_conditions(groups: &[AcceptableResultGroup]) -> (r: usize)
    ensures
        r <= MAXIMUM_LIBRARY_CONDITIONS + 1,
        r == if group_conditions(group_views(groups@)) <= MAXIMUM_LIBRARY_CONDITIONS {
            group_conditions(group_views(groups@))
        } else {
            (MAXIMUM_LIBRARY_CONDITIONS + 1) as nat
        },
{
    let n = groups.len();
    let mut total: usize = 0;
    let mut i: usize = 0;
    while i < n
        invariant
            n == groups@.len(),
            i <= n,
            total == if group_conditions(group_views(groups@.take(i as int))) <= MAXIMUM_LIBRARY_CONDITIONS {
                group_conditions(group_views(groups@.take(i as int)))
            } else {
                (MAXIMUM_LIBRARY_CONDITIONS + 1) as nat
            },
        decreases n - i,
    {
        let ghost t = group_views(groups@.take(i + 1));
        assert(t.drop_last() =~= group_views(groups@.take(i as int)));
        let k = groups[i].conditions.len();
        if total > MAXIMUM_LIBRARY_CONDITIONS || k > MAXIMUM_LIBRARY_CONDITIONS - total {
            total = MAXIMUM_LIBRARY_CONDITIONS + 1;
        } else {
            total = total + k;
        }
        i = i + 1;
    }
    assert(groups@.take(n as int) =~= groups@);
    total
}

pub open spec fn group_views(v: Seq<AcceptableResultGroup>) -> Seq<GroupDefinitionView> {
    v.map_values(|g: AcceptableResultGroup| g@)
}

/// Whether the library can take the additional groups as new entries
/// without passing its limits.
pub fn library_growth_fits(existing: &[LibraryEntry], additional: &[AcceptableResultGroup]) -> (b: bool)
    requires
        entry_conditions(entry_views(existing@)) <= usize::MAX,
    ensures
        b == library_fits(
            entry_views(existing@),
            additional@.len() as int,
            group_conditions(group_views(additional@)) as int,
        ),
{
    let have = total_conditions(existing);
    let extra = capped_group_conditions(additional);
    existing.len() <= MAXIMUM_LIBRARY_ENTRIES && additional.len() <= MAXIMUM_LIBRARY_ENTRIES - existing.len() && extra
        <= MAXIMUM_LIBRARY_CONDITIONS && have <= MAXIMUM_LIBRARY_CONDITIONS - extra
}

/// The two conditions are the same in every field.
fn same_condition(a: &AffixCondition, b: &AffixCondition) -> (r: bool)
    ensures
        r == (a@ == b@),
{
    if a.enabled != b.enabled || !(a.name == b.name) || !(a.template == b.template) {
        return false;
    }
    let n = a.numeric_constraints.len();
    if n != b.numeric_constraints.len() {
        return false;
    }
    let mut k: usize = 0;
    while k < n
        invariant
            n == a.numeric_constraints@.len(),
            n == b.numeric_constraints@.len(),
            k <= n,
            forall|m: int| 0 <= m < k ==> a.numeric_constraints@[m] == b.numeric_constraints@[m],
        decreases n - k,
    {
        if a.numeric_constraints[k] != b.numeric_constraints[k] {
            return false;
        }
        k = k + 1;
    }
    assert(a.numeric_constraints@ =~= b.numeric_constraints@);
    true
}

/// The two groups are the same in every field.
fn same_group(a: &AcceptableResultGroup, b: &AcceptableResultGroup) -> (r: bool)
    ensures
        r == (a@ == b@),
{
    if a.mode != b.mode || a.required_count != b.required_count || !(a.name == b.name) {
        return false;
    }
    let n = a.conditions.len();
    if n != b.conditions.len() {
        assert(condition_views(a.conditions@).len() != condition_views(b.conditions@).len());
        return false;
    }
    let mut k: usize = 0;
    while k < n
        invariant
            n == a.conditions@.len(),
            n == b.conditions@.len(),
            k <= n,
            forall|m: int| 0 <= m < k ==> a.conditions@[m]@ == b.conditions@[m]@,
        decreases n - k,
    {
        if !same_condition(&a.conditions[k], &b.conditions[k]) {
            assert(condition_views(a.conditions@)[k as int] != condition_views(b.conditions@)[k as int]);
            return false;
        }
        k = k + 1;
    }
    assert(condition_views(a.conditions@) =~= condition_views(b.conditions@));
    true
}

/// The two entries are the same in every field.
fn same_entry(a: &LibraryEntry, b: &LibraryEntry) -> (r: bool)
    ensures
        r == (a@ == b@),
{
    a.game == b.game && a.is_plan == b.is_plan && a.name == b.name && a.category == b.category && a.language
        == b.language && same_group(&a.group, &b.group)
}

/// Some entry of the list equals `e` in every field.
fn listed(list: &Vec<LibraryEntry>, e: &LibraryEntry) -> (r: bool)
    ensures
        r == entry_views(list@).contains(e@),
{
    let n = list.len();
    let mut k: usize = 0;
    while k < n
        invariant
            n == list@.len(),
            k <= n,
            forall|m: int| 0 <= m < k ==> list@[m]@ != e@,
        decreases n - k,
    {
        if same_entry(&list[k], e) {
            assert(entry_views(list@)[k as int] == e@);
            return true;
        }
        k = k + 1;
    }
    assert forall|m: int| 0 <= m < entry_views(list@).len() implies entry_views(list@)[m] != e@ by {
        assert(list@[m]@ != e@);
    }
    false
}

/// The incoming entries the library does not hold yet, each once, in order
/// of first appearance.
pub open spec fn fresh_entries(existing: Seq<EntryView>, incoming: Seq<EntryView>) -> Seq<EntryView>
    decreases incoming.len(),
{
    if incoming.len() == 0 {
        Seq::empty()
    } else {
        let earlier = fresh_entries(existing, incoming.drop_last());
        let e = incoming.last();
        if existing.contains(e) || earlier.contains(e) {
            earlier
        } else {
            earlier.push(e)
        }
    }
}

/// Counts the conditions of the entries, stopping once past the library's
/// limit.
fn capped_entry_conditions(entries: &Vec<LibraryEntry>) -> (r: usize)
    ensures
        r == if entry_conditions(entry_views(entries@)) <= MAXIMUM_LIBRARY_CONDITIONS {
            entry_conditions(entry_views(entries@))
        } else {
            (MAXIMUM_LIBRARY_CONDITIONS + 1) as nat
        },
{
    let n = entries.len();
    let mut total: usize = 0;
    let mut i: usize = 0;
    while i < n
        invariant
            n == entries@.len(),
            i <= n,
            total == if entry_conditions(entry_views(entries@.take(i as int))) <= MAXIMUM_LIBRARY_CONDITIONS {
                entry_conditions(entry_views(entries@.take(i as int)))
            } else {
                (MAXIMUM_LIBRARY_CONDITIONS + 1) as nat
            },
        decreases n - i,
    {
        let ghost t = entry_views(entries@.take(i + 1));
        assert(t.drop_last() =~= entry_views(entries@.take(i as int)));
        let k = entries[i].group.conditions.len();
        if total > MAXIMUM_LIBRARY_CONDITIONS || k > MAXIMUM_LIBRARY_CONDITIONS - total {
            total = MAXIMUM_LIBRARY_CONDITIONS + 1;
        } else {
            total = total + k;
        }
        i = i + 1;
    }
    assert(entries@.take(n as int) =~= entries@);
    total
}

/// Adds the incoming entries the library does not hold yet, each once, and
/// says how many were added. When they would take the library past its
/// limits nothing is added.
pub fn merge_library_entries(existing: &mut Vec<LibraryEntry>, incoming: Vec<LibraryEntry>) -> (r: Result<
    usize,
    &'static str,
>)
    requires
        entry_conditions(entry_views(old(existing)@)) <= usize::MAX,
    ensures
        ({
            let fresh = fresh_entries(entry_views(old(existing)@), entry_views(incoming@));
            if library_fits(entry_views(old(existing)@), fresh.len() as int, entry_conditions(fresh) as int) {
                &&& r == Ok::<usize, &'static str>(fresh.len() as usize)
                &&& entry_views(final(existing)@) == entry_views(old(existing)@) + fresh
            } else {
                &&& r matches Err(m) && m@ == "Library limit: 4096 entries / 8192 affixes. Remove some before importing."@
                &&& final(existing)@ == old(existing)@
            }
        }),
{
    let ghost before = entry_views(existing@);
    let ghost all = entry_views(incoming@);
    let mut incoming = incoming;
    let mut additional: Vec<LibraryEntry> = Vec::new();
    let ghost mut taken: int = 0;
    while incoming.len() > 0
        invariant
            0 <= taken <= all.len(),
            before == entry_views(existing@),
            entry_views(incoming@) == all.skip(taken),
            entry_views(additional@) == fresh_entries(before, all.take(taken)),
        decreases incoming@.len(),
    {
        let ghost prev = incoming@;
        let entry = incoming.remove(0);
        proof {
            assert(entry_views(prev).len() == all.len() - taken);
            assert(entry_views(prev)[0] == entry@);
            assert(all.skip(taken)[0] == all[taken]);
            assert(entry@ == all[taken]);
            assert forall|m: int| 0 <= m < entry_views(incoming@).len() implies entry_views(incoming@)[m] == all.skip(
                taken + 1,
            )[m] by {
                assert(incoming@[m] == prev[m + 1]);
                assert(entry_views(prev)[m + 1] == all.skip(taken)[m + 1]);
            }
            assert(entry_views(incoming@) =~= all.skip(taken + 1));
            assert(all.take(taken + 1).drop_last() =~= all.take(taken));
            assert(all.take(taken + 1).last() == all[taken]);
        }
        let held = listed(existing, &entry);
        let repeated = listed(&additional, &entry);
        if !held && !repeated {
            additional.push(entry);
            assert(entry_views(additional@) =~= fresh_entries(before, all.take(taken + 1)));
        }
        proof {
            taken = taken + 1;
        }
    }
    assert(all.take(taken) =~= all);
    let have = total_conditions(existing.as_slice());
    let extra = capped_entry_conditions(&additional);
    let fits = existing.len() <= MAXIMUM_LIBRARY_ENTRIES && additional.len() <= MAXIMUM_LIBRARY_ENTRIES
        - existing.len() && extra <= MAXIMUM_LIBRARY_CONDITIONS && have <= MAXIMUM_LIBRARY_CONDITIONS - extra;
    if !fits {
        return Err("Library limit: 4096 entries / 8192 affixes. Remove some before importing.");
    }
    let added = additional.len();
    let ghost kept = existing@;
    let ghost joined = additional@;
    existing.append(&mut additional);
    assert(existing@ =~= kept + joined);
    assert(entry_views(existing@) =~= entry_views(kept) + entry_views(joined));
    Ok(added)
}

/// `a` and `b` are equal up to ASCII case.
pub open spec fn same_ignoring_case(a: Seq<char>, b: Seq<char>) -> bool {
    ascii_lowered(a) == ascii_lowered(b)
}

/// `name`, or a name equal to it up to ASCII case, is among `names`.
pub open spec fn name_taken(names: Seq<Seq<char>>, name: Seq<char>) -> bool {
    exists|i: int| 0 <= i < names.len() && same_ignoring_case(#[trigger] names[i], name)
}

/// `original (s)`.
pub open spec fn suffixed(original: Seq<char>, s: nat) -> Seq<char> {
    original + seq![' ', '('] + decimal(s) + seq![')']
}

/// `result` is what `original` becomes among `names`: unchanged when empty
/// or free; otherwise `original (s)` with the least `s` from 2 that is free.
pub open spec fn renamed(names: Seq<Seq<char>>, original: Seq<char>, result: Seq<char>) -> bool {
    if original.len() == 0 || !name_taken(names, original) {
        result == original
    } else {
        exists|s: nat|
            2 <= s && result == #[trigger] suffixed(original, s) && !name_taken(names, suffixed(original, s))
                && forall|t: nat| 2 <= t < s ==> name_taken(names, #[trigger] suffixed(original, t))
    }
}

/// A copied name, once made unique, is taken by no other name, unless it is
/// empty.
pub proof fn renamed_name_is_free(names: Seq<Seq<char>>, original: Seq<char>, result: Seq<char>)
    requires
        renamed(names, original, result),
        original.len() > 0,
    ensures
        !name_taken(names, result),
{
}

/// Every character of a decimal rendering is a digit.
proof fn lemma_decimal_digits(n: nat)
    ensures
        decimal(n).len() >= 1,
        forall|i: int| 0 <= i < decimal(n).len() ==> '0' <= #[trigger] decimal(n)[i] <= '9',
    decreases n,
{
    if n >= 10 {
        lemma_decimal_digits(n / 10);
    }
}

/// A decimal rendering reads back as its number.
proof fn lemma_decimal_value(n: nat)
    ensures
        digits_value(decimal(n)) == n,
    decreases n,
{
    let d = digit_char(n % 10);
    assert((d as u32) == ('0' as u32) + n % 10);
    assert(decimal(n).last() == d);
    assert(n == (n / 10) * 10 + n % 10) by (nonlinear_arith);
    lemma_decimal_digits(n);
    assert(digits_value(decimal(n)) == digits_value(decimal(n).drop_last()) * 10 + ((decimal(n).last() as u32) - (
    '0' as u32)) as nat);
    assert(((d as u32) - ('0' as u32)) as nat == n % 10);
    if n < 10 {
        assert(decimal(n).drop_last() =~= Seq::<char>::empty());
        assert(n % 10 == n);
    } else {
        lemma_decimal_value(n / 10);
        assert(decimal(n).drop_last() =~= decimal(n / 10));
    }
}

/// Different numbers render differently.
pub(crate) proof fn lemma_decimal_injective(a: nat, b: nat)
    requires
        decimal(a) == decimal(b),
    ensures
        a == b,
{
    lemma_decimal_value(a);
    lemma_decimal_value(b);
}

/// Lower-casing goes character by character.
proof fn lemma_lowered_concat(a: Seq<char>, b: Seq<char>)
    ensures
        ascii_lowered(a + b) == ascii_lowered(a) + ascii_lowered(b),
{
    assert(ascii_lowered(a + b) =~= ascii_lowered(a) + ascii_lowered(b));
}

/// Two suffixed names equal up to case carry the same suffix.
proof fn lemma_suffixed_distinct(original: Seq<char>, s: nat, t: nat)
    requires
        same_ignoring_case(suffixed(original, s), suffixed(original, t)),
    ensures
        s == t,
{
    let open_ = seq![' ', '('];
    let close = seq![')'];
    lemma_lowered_concat(original + open_ + decimal(s), close);
    lemma_lowered_concat(original + open_, decimal(s));
    lemma_lowered_concat(original, open_);
    lemma_lowered_concat(original + open_ + decimal(t), close);
    lemma_lowered_concat(original + open_, decimal(t));
    let ls = ascii_lowered(suffixed(original, s));
    let lt = ascii_lowered(suffixed(original, t));
    assert(ls.len() == lt.len());
    assert(decimal(s).len() == decimal(t).len());
    let start = original.len() + 2;
    lemma_decimal_digits(s);
    lemma_decimal_digits(t);
    assert forall|i: int| 0 <= i < decimal(s).len() implies decimal(s)[i] == decimal(t)[i] by {
        assert(ls[start + i] == lt[start + i]);
        assert(ls[start + i] == ascii_lower_char(decimal(s)[i]));
        assert(lt[start + i] == ascii_lower_char(decimal(t)[i]));
    }
    assert(decimal(s) =~= decimal(t));
    lemma_decimal_injective(s, t);
}

/// The names, lower-cased.
fn lowered_names(names: &Vec<Vec<char>>) -> (out: Vec<Vec<char>>)
    ensures
        out@.len() == names@.len(),
        forall|i: int| 0 <= i < names@.len() ==> (#[trigger] out@[i])@ == ascii_lowered(names@[i]@),
{
    let n = names.len();
    let mut out: Vec<Vec<char>> = Vec::new();
    let mut i: usize = 0;
    while i < n
        invariant
            n == names@.len(),
            i <= n,
            out@.len() == i,
            forall|m: int| 0 <= m < i ==> (#[trigger] out@[m])@ == ascii_lowered(names@[m]@),
        decreases n - i,
    {
        out.push(lower_ascii(names[i].as_slice()));
        i = i + 1;
    }
    out
}

/// Some lower-cased name equals `lowered`.
fn among(lowered_list: &Vec<Vec<char>>, lowered: &Vec<char>) -> (r: bool)
    ensures
        r == exists|i: int| 0 <= i < lowered_list@.len() && (#[trigger] lowered_list@[i])@ == lowered@,
{
    let n = lowered_list.len();
    let mut i: usize = 0;
    while i < n
        invariant
            n == lowered_list@.len(),
            i <= n,
            forall|m: int| 0 <= m < i ==> (#[trigger] lowered_list@[m])@ != lowered@,
        decreases n - i,
    {
        if same_chars(lowered_list[i].as_slice(), lowered.as_slice()) {
            return true;
        }
        i = i + 1;
    }
    false
}

/// `original (suffix)`.
fn suffixed_chars(original: &Vec<char>, suffix: usize) -> (out: Vec<char>)
    requires
        suffix <= u64::MAX,
    ensures
        out@ == suffixed(original@, suffix as nat),
{
    let mut out: Vec<char> = Vec::new();
    push_all(&mut out, original.as_slice());
    out.push(' ');
    out.push('(');
    push_decimal(&mut out, suffix as u64);
    out.push(')');
    assert(out@ =~= suffixed(original@, suffix as nat));
    out
}

/// What `original` becomes among `names`: unchanged when empty or free,
/// otherwise suffixed with the least free number from 2.
fn unique_name(names: &Vec<Vec<char>>, original: &Vec<char>) -> (out: Vec<char>)
    requires
        names@.len() + 2 <= usize::MAX,
    ensures
        renamed(views_of(names@), original@, out@),
{
    let ghost ns = views_of(names@);
    let lowered_list = lowered_names(names);
    proof {
        assert forall|i: int| 0 <= i < ns.len() implies (#[trigger] lowered_list@[i])@ == ascii_lowered(ns[i]) by {
            assert(ns[i] == names@[i]@);
        }
        assert forall|l: Seq<char>|
            (exists|i: int| 0 <= i < lowered_list@.len() && (#[trigger] lowered_list@[i])@ == ascii_lowered(l))
                == name_taken(ns, l) by {
            lemma_among(lowered_list@, ns, l);
        }
    }
    if original.len() == 0 {
        return copy_chars_of(original);
    }
    let first = lower_ascii(original.as_slice());
    if !among(&lowered_list, &first) {
        return copy_chars_of(original);
    }
    let n = names.len();
    let mut suffix: usize = 2;
    let ghost mut used: Set<int> = Set::empty();
    loop
        invariant
            ns == views_of(names@),
            n == ns.len(),
            n == lowered_list@.len(),
            n + 2 <= usize::MAX,
            2 <= suffix <= n + 2,
            original@.len() > 0,
            name_taken(ns, original@),
            forall|l: Seq<char>|
                (exists|i: int| 0 <= i < lowered_list@.len() && (#[trigger] lowered_list@[i])@ == ascii_lowered(l))
                    == name_taken(ns, l),
            forall|t: nat| 2 <= t < suffix ==> name_taken(ns, #[trigger] suffixed(original@, t)),
            used.finite(),
            used.len() == suffix - 2,
            forall|i: int| #[trigger] used.contains(i) ==> 0 <= i < n,
            forall|i: int|
                #[trigger] used.contains(i) ==> exists|t: nat|
                    2 <= t < suffix && same_ignoring_case(ns[i], #[trigger] suffixed(original@, t)),
        decreases n + 2 - suffix,
    {
        let candidate = suffixed_chars(original, suffix);
        let lowered = lower_ascii(candidate.as_slice());
        if !among(&lowered_list, &lowered) {
            proof {
                assert(!name_taken(ns, suffixed(original@, suffix as nat)));
                assert(renamed(ns, original@, candidate@));
            }
            return candidate;
        }
        proof {
            let c = suffixed(original@, suffix as nat);
            assert(name_taken(ns, c));
            let j = choose|i: int| 0 <= i < ns.len() && same_ignoring_case(#[trigger] ns[i], c);
            if used.contains(j) {
                let t = choose|t: nat| 2 <= t < suffix && same_ignoring_case(ns[j], #[trigger] suffixed(original@, t));
                lemma_suffixed_distinct(original@, t, suffix as nat);
            }
            lemma_used_bound(used, n as int);
            let grown = used.insert(j);
            assert(grown.len() == used.len() + 1);
            lemma_used_bound(grown, n as int);
            assert forall|i: int| #[trigger] grown.contains(i) implies exists|t: nat|
                2 <= t < suffix + 1 && same_ignoring_case(ns[i], #[trigger] suffixed(original@, t)) by {
                if i == j {
                    assert(same_ignoring_case(ns[i], suffixed(original@, suffix as nat)));
                } else {
                    let t = choose|t: nat| 2 <= t < suffix && same_ignoring_case(ns[i], #[trigger] suffixed(original@, t));
                }
            }
            used = grown;
        }
        suffix = suffix + 1;
    }
}

/// The lower-cased list holds `l` lower-cased exactly when `l` is taken.
proof fn lemma_among(lowered_list: Seq<Vec<char>>, ns: Seq<Seq<char>>, l: Seq<char>)
    requires
        lowered_list.len() == ns.len(),
        forall|i: int| 0 <= i < ns.len() ==> (#[trigger] lowered_list[i])@ == ascii_lowered(ns[i]),
    ensures
        (exists|i: int| 0 <= i < lowered_list.len() && (#[trigger] lowered_list[i])@ == ascii_lowered(l)) == name_taken(
            ns,
            l,
        ),
{
    if name_taken(ns, l) {
        let i = choose|i: int| 0 <= i < ns.len() && same_ignoring_case(#[trigger] ns[i], l);
        assert(lowered_list[i]@ == ascii_lowered(l));
    }
    if exists|i: int| 0 <= i < lowered_list.len() && (#[trigger] lowered_list[i])@ == ascii_lowered(l) {
        let i = choose|i: int| 0 <= i < lowered_list.len() && (#[trigger] lowered_list[i])@ == ascii_lowered(l);
        assert(same_ignoring_case(ns[i], l));
    }
}

/// A set of indices below `n` has at most `n` elements.
proof fn lemma_used_bound(used: Set<int>, n: int)
    requires
        used.finite(),
        0 <= n,
        forall|i: int| #[trigger] used.contains(i) ==> 0 <= i < n,
    ensures
        used.len() <= n,
{
    vstd::set_lib::lemma_int_range(0, n);
    vstd::set_lib::lemma_len_subset(used, vstd::set_lib::set_int_range(0, n));
}

/// A copy of the characters.
fn copy_chars_of(v: &Vec<char>) -> (out: Vec<char>)
    ensures
        out@ == v@,
{
    let mut out: Vec<char> = Vec::new();
    push_all(&mut out, v.as_slice());
    out
}

pub open spec fn views_of(v: Seq<Vec<char>>) -> Seq<Seq<char>> {
    v.map_values(|x: Vec<char>| x@)
}

/// The names of the conditions.
pub open spec fn condition_names(v: Seq<AffixCondition>) -> Seq<Seq<char>> {
    v.map_values(|c: AffixCondition| c.name@)
}

/// The names of the groups.
pub open spec fn group_names(v: Seq<AcceptableResultGroup>) -> Seq<Seq<char>> {
    v.map_values(|g: AcceptableResultGroup| g.name@)
}

/// A renamed copy never clashes: its name, compared without regard to ASCII
/// case, is taken by none of the others unless it was left empty; it keeps
/// the original name as its beginning, and it is left as it was exactly when
/// the original was empty or free.
pub proof fn renaming_leaves_no_clash(names: Seq<Seq<char>>, original: Seq<char>, result: Seq<char>)
    requires
        renamed(names, original, result),
    ensures
        original.len() > 0 ==> !name_taken(names, result),
        result.len() >= original.len() && result.take(original.len() as int) == original,
        (result == original) <==> (original.len() == 0 || !name_taken(names, original)),
{
    if !(original.len() == 0 || !name_taken(names, original)) {
        let n = choose|n: nat|
            2 <= n && result == #[trigger] suffixed(original, n) && !name_taken(names, suffixed(original, n))
                && forall|t: nat| 2 <= t < n ==> name_taken(names, #[trigger] suffixed(original, t));
        assert(result.take(original.len() as int) =~= original);
        assert(result.len() > original.len());
    } else {
        assert(result.take(original.len() as int) =~= original);
    }
}

/// Renames a copied condition so no other condition shares its name up to
/// ASCII case: `Life` becomes `Life (2)`, then `Life (3)`, and so on. An
/// empty name stays empty.
pub fn make_condition_name_unique(condition: &mut AffixCondition, others: &[AffixCondition])
    requires
        others@.len() + 2 <= 0x7fff_ffff,
    ensures
        renamed(condition_names(others@), old(condition).name@, final(condition).name@),
        final(condition).template == old(condition).template,
        final(condition).numeric_constraints == old(condition).numeric_constraints,
        final(condition).enabled == old(condition).enabled,
{
    let names = names_of_conditions(others);
    let original = chars_of(condition.name.as_str());
    let out = unique_name(&names, &original);
    assert(views_of(names@) =~= condition_names(others@));
    condition.name = string_of(out.as_slice());
}

/// Renames a copied group so no other group shares its name up to ASCII
/// case, as for conditions.
pub fn make_group_name_unique(group: &mut AcceptableResultGroup, others: &[AcceptableResultGroup])
    requires
        others@.len() + 2 <= 0x7fff_ffff,
    ensures
        renamed(group_names(others@), old(group).name@, final(group).name@),
        final(group).mode == old(group).mode,
        final(group).required_count == old(group).required_count,
        final(group).conditions == old(group).conditions,
{
    let names = names_of_groups(others);
    let original = chars_of(group.name.as_str());
    let out = unique_name(&names, &original);
    assert(views_of(names@) =~= group_names(others@));
    group.name = string_of(out.as_slice());
}

fn names_of_conditions(v: &[AffixCondition]) -> (out: Vec<Vec<char>>)
    ensures
        views_of(out@) == condition_names(v@),
        out@.len() == v@.len(),
{
    let n = v.len();
    let mut out: Vec<Vec<char>> = Vec::new();
    let mut i: usize = 0;
    while i < n
        invariant
            n == v@.len(),
            i <= n,
            views_of(out@) == condition_names(v@.take(i as int)),
        decreases n - i,
    {
        let ghost before = out@;
        let name = chars_of(v[i].name.as_str());
        out.push(name);
        assert(out@ == before.push(name));
        assert(condition_names(v@.take(i + 1)) =~= condition_names(v@.take(i as int)).push(v@[i as int].name@));
        assert(views_of(out@) =~= views_of(before).push(name@));
        i = i + 1;
    }
    assert(v@.take(n as int) =~= v@);
    out
}

fn names_of_groups(v: &[AcceptableResultGroup]) -> (out: Vec<Vec<char>>)
    ensures
        views_of(out@) == group_names(v@),
        out@.len() == v@.len(),
{
    let n = v.len();
    let mut out: Vec<Vec<char>> = Vec::new();
    let mut i: usize = 0;
    while i < n
        invariant
            n == v@.len(),
            i <= n,
            views_of(out@) == group_names(v@.take(i as int)),
        decreases n - i,
    {
        let ghost before = out@;
        let name = chars_of(v[i].name.as_str());
        out.push(name);
        assert(out@ == before.push(name));
        assert(group_names(v@.take(i + 1)) =~= group_names(v@.take(i as int)).push(v@[i as int].name@));
        assert(views_of(out@) =~= views_of(before).push(name@));
        i = i + 1;
    }
    assert(v@.take(n as int) =~= v@);
    out
}

/// The length of `s` in UTF-8 bytes, as `str::len` gives it.
pub open spec fn byte_len(s: Seq<char>) -> usize {
    encode_utf8(s).len() as usize
}

/// The widest modifier an entry's conditions may span, by game.
pub open spec fn game_span(g: GameProfile) -> int {
    match g {
        GameProfile::Poe1 => DEFAULT_MAXIMUM_PHYSICAL_LINE_SPAN as int,
        GameProfile::Poe2 => MAXIMUM_SUPPORTED_PHYSICAL_LINE_SPAN as int,
    }
}

/// The rule set a saved condition is checked as: the condition, enabled,
/// alone in a default group of a default rule set.
pub open spec fn lone_definition(c: ConditionView) -> DefinitionView {
    DefinitionView {
        schema_version: CURRENT_SCHEMA_VERSION,
        name: Seq::empty(),
        groups: seq![
            GroupDefinitionView {
                name: Seq::empty(),
                mode: ResultGroupMode::Any,
                required_count: 1,
                conditions: seq![ConditionView { name: c.name, template: c.template, constraints: c.constraints, enabled: true }],
            },
        ],
    }
}

/// Why that rule set does not compile, or `None` when it does.
pub open spec fn compile_problem(c: ConditionView, span: int) -> Option<Seq<char>> {
    let d = lone_definition(c);
    if definition_errors(d, span).len() > 0 {
        Some(joined_messages(definition_errors(d, span)))
    } else {
        match problem_from(d.groups, 0, span) {
            Some(p) => Some(joined_messages(seq![p])),
            None => None,
        }
    }
}

/// The first problem among the entry's conditions from the `k`th: a
/// template too long to store, or one that does not compile.
pub open spec fn conditions_problem(e: EntryView, k: int) -> Option<Seq<char>>
    decreases e.group.conditions.len() - k,
{
    if k < 0 || k >= e.group.conditions.len() {
        None
    } else {
        let c = e.group.conditions[k];
        if byte_len(c.template) > 8192 {
            Some("Modifier template is too long"@)
        } else {
            match compile_problem(c, game_span(e.game)) {
                Some(m) => Some(e.name + ": "@ + m),
                None => conditions_problem(e, k + 1),
            }
        }
    }
}

/// The languages an entry may be saved in.
pub open spec fn known_language(l: Seq<char>) -> bool {
    l == seq!['e', 'n'] || l == seq!['z', 'h', '-', 'T', 'W']
}

/// The first problem with one entry, its condition count against the
/// library aside.
pub open spec fn entry_problem(e: EntryView) -> Option<Seq<char>> {
    let n = e.group.conditions.len();
    if !known_language(e.language) || n == 0 || (!e.is_plan && n != 1) {
        Some("Invalid language or modifier count: "@ + e.name)
    } else if byte_len(e.name) > 1024 || byte_len(e.category) > 256 || byte_len(e.group.name) > 1024 {
        Some("Library names are too long"@)
    } else {
        match conditions_problem(e, 0) {
            Some(m) => Some(m),
            None => if e.group.mode == ResultGroupMode::AtLeast && (e.group.required_count == 0
                || e.group.required_count > n) {
                Some("Invalid required condition count: "@ + e.name)
            } else {
                None
            },
        }
    }
}

/// The first problem from the `i`th entry on, `total` conditions counted
/// before it.
pub open spec fn entries_problem(entries: Seq<EntryView>, i: int, total: int) -> Option<Seq<char>>
    decreases entries.len() - i,
{
    if i < 0 || i >= entries.len() {
        None
    } else {
        let n = entries[i].group.conditions.len();
        if total + n > MAXIMUM_LIBRARY_CONDITIONS || n > MAXIMUM_SAVED_CONDITIONS {
            Some("Library contains too many conditions"@)
        } else {
            match entry_problem(entries[i]) {
                Some(m) => Some(m),
                None => entries_problem(entries, i + 1, total + n),
            }
        }
    }
}

/// The first problem with a library, or `None` when it may be stored.
pub open spec fn library_problem(entries: Seq<EntryView>) -> Option<Seq<char>> {
    if entries.len() > MAXIMUM_LIBRARY_ENTRIES {
        Some("Library contains more than 4096 entries"@)
    } else {
        entries_problem(entries, 0, 0)
    }
}

/// A string holding the literal.
fn text(literal: &str) -> (s: String)
    ensures
        s@ == literal@,
{
    let chars = chars_of(literal);
    string_of(chars.as_slice())
}

/// The literal followed by `name`.
fn text_with(literal: &str, name: &String) -> (s: String)
    ensures
        s@ == literal@ + name@,
{
    let mut out = chars_of(literal);
    push_str_chars(&mut out, name.as_str());
    string_of(out.as_slice())
}

/// A copy of the constraints.
fn copy_constraints(v: &Vec<NumericConstraint>) -> (out: Vec<NumericConstraint>)
    ensures
        out@ == v@,
{
    let n = v.len();
    let mut out: Vec<NumericConstraint> = Vec::new();
    let mut i: usize = 0;
    while i < n
        invariant
            n == v@.len(),
            i <= n,
            out@ == v@.take(i as int),
        decreases n - i,
    {
        out.push(v[i]);
        assert(out@ =~= v@.take(i + 1));
        i = i + 1;
    }
    assert(v@.take(n as int) =~= v@);
    out
}

/// Why the condition, saved for a game with the given span, does not
/// compile on its own.
fn check_condition(c: &AffixCondition, span: usize) -> (r: Option<String>)
    requires
        span == DEFAULT_MAXIMUM_PHYSICAL_LINE_SPAN || span == MAXIMUM_SUPPORTED_PHYSICAL_LINE_SPAN,
    ensures
        match r {
            Some(m) => compile_problem(c@, span as int) == Some(m@),
            None => compile_problem(c@, span as int) is None,
        },
{
    let lone = AffixCondition {
        name: c.name.clone(),
        template: c.template.clone(),
        numeric_constraints: copy_constraints(&c.numeric_constraints),
        enabled: true,
    };
    let mut conditions: Vec<AffixCondition> = Vec::new();
    conditions.push(lone);
    let group = AcceptableResultGroup {
        name: String::new(),
        mode: ResultGroupMode::Any,
        required_count: 1,
        conditions,
    };
    let mut groups: Vec<AcceptableResultGroup> = Vec::new();
    groups.push(group);
    let definition = RuleSetDefinition { schema_version: CURRENT_SCHEMA_VERSION, name: String::new(), groups };
    proof {
        assert(condition_views(definition.groups@[0].conditions@) =~= lone_definition(c@).groups[0].conditions);
        assert(crate::rules::group_definition_views(definition.groups@) =~= lone_definition(c@).groups);
        assert(definition@ == lone_definition(c@));
    }
    match CompiledRuleSet::compile_with_maximum_line_span(definition, span) {
        Ok(_) => None,
        Err(error) => {
            let m = error.to_string();
            Some(m)
        },
    }
}

/// The first problem with one entry, its condition count against the
/// library aside.
fn check_entry(e: &LibraryEntry) -> (r: Option<String>)
    ensures
        match r {
            Some(m) => entry_problem(e@) == Some(m@),
            None => entry_problem(e@) is None,
        },
{
    let n = e.group.conditions.len();
    let lang = chars_of(e.language.as_str());
    let en = chars_of("en");
    let zh = chars_of("zh-TW");
    proof {
        reveal_strlit("en");
        reveal_strlit("zh-TW");
        assert(en@ =~= seq!['e', 'n']);
        assert(zh@ =~= seq!['z', 'h', '-', 'T', 'W']);
    }
    let known = same_chars(lang.as_slice(), en.as_slice()) || same_chars(lang.as_slice(), zh.as_slice());
    assert(known == known_language(e@.language));
    if !known || n == 0 || (!e.is_plan && n != 1) {
        return Some(text_with("Invalid language or modifier count: ", &e.name));
    }
    if e.name.as_str().len() > 1024 || e.category.as_str().len() > 256 || e.group.name.as_str().len() > 1024 {
        return Some(text("Library names are too long"));
    }
    let span = match e.game {
        GameProfile::Poe1 => DEFAULT_MAXIMUM_PHYSICAL_LINE_SPAN,
        GameProfile::Poe2 => MAXIMUM_SUPPORTED_PHYSICAL_LINE_SPAN,
    };
    let mut k: usize = 0;
    while k < n
        invariant
            n == e.group.conditions@.len(),
            k <= n,
            known_language(e@.language),
            n > 0,
            e.is_plan || n == 1,
            !(byte_len(e@.name) > 1024 || byte_len(e@.category) > 256 || byte_len(e@.group.name) > 1024),
            span as int == game_span(e.game),
            span == DEFAULT_MAXIMUM_PHYSICAL_LINE_SPAN || span == MAXIMUM_SUPPORTED_PHYSICAL_LINE_SPAN,
            conditions_problem(e@, 0) == conditions_problem(e@, k as int),
        decreases n - k,
    {
        let c = &e.group.conditions[k];
        assert(e@.group.conditions[k as int] == c@);
        if c.template.as_str().len() > 8192 {
            return Some(text("Modifier template is too long"));
        }
        match check_condition(c, span) {
            Some(m) => {
                let mut out = chars_of(e.name.as_str());
                push_str_chars(&mut out, ": ");
                push_str_chars(&mut out, m.as_str());
                return Some(string_of(out.as_slice()));
            },
            None => {},
        }
        k = k + 1;
    }
    if e.group.mode == ResultGroupMode::AtLeast && (e.group.required_count == 0 || e.group.required_count > n) {
        return Some(text_with("Invalid required condition count: ", &e.name));
    }
    None
}

/// Checks a library before it is stored or imported: its size, each
/// entry's language, modifier count, names and required count, and that
/// every saved condition compiles on its own for its game. Reports the
/// first problem.
pub fn validate_library_entries(entries: &[LibraryEntry]) -> (r: Result<(), String>)
    ensures
        match r {
            Ok(()) => library_problem(entry_views(entries@)) is None,
            Err(m) => library_problem(entry_views(entries@)) == Some(m@),
        },
{
    if entries.len() > MAXIMUM_LIBRARY_ENTRIES {
        return Err(text("Library contains more than 4096 entries"));
    }
    let ghost views = entry_views(entries@);
    let n = entries.len();
    let mut total: usize = 0;
    let mut i: usize = 0;
    while i < n
        invariant
            views == entry_views(entries@),
            n == entries@.len(),
            i <= n,
            n <= MAXIMUM_LIBRARY_ENTRIES,
            total <= MAXIMUM_LIBRARY_CONDITIONS,
            entries_problem(views, 0, 0) == entries_problem(views, i as int, total as int),
        decreases n - i,
    {
        let entry = &entries[i];
        assert(views[i as int] == entry@);
        let k = entry.group.conditions.len();
        total = total.saturating_add(k);
        if total > MAXIMUM_LIBRARY_CONDITIONS || k > MAXIMUM_SAVED_CONDITIONS {
            return Err(text("Library contains too many conditions"));
        }
        match check_entry(entry) {
            Some(m) => {
                return Err(m);
            },
            None => {},
        }
        i = i + 1;
    }
    Ok(())
}

/// How a constraint's value reads in the library: the value, or `?` when
/// it is missing.
pub open spec fn shown_value(v: Option<crate::decimal::Decimal>) -> Seq<char> {
    match v {
        Some(d) => crate::decimal::decimal_text(d@),
        None => seq!['?'],
    }
}

/// A constraint as the library lists it: `—` for none, `≥min`, `≤max`,
/// `=value`, or `min…max`.
pub open spec fn constraint_text(c: NumericConstraint) -> Seq<char> {
    match c.mode {
        NumericConstraintMode::Ignore => seq!['—'],
        NumericConstraintMode::AtLeast => seq!['≥'] + shown_value(c.minimum),
        NumericConstraintMode::AtMost => seq!['≤'] + shown_value(c.maximum),
        NumericConstraintMode::Exactly => seq!['='] + shown_value(c.expected),
        NumericConstraintMode::RangeInclusive => shown_value(c.minimum) + seq!['…'] + shown_value(c.maximum),
    }
}

fn push_shown(out: &mut Vec<char>, v: Option<crate::decimal::Decimal>)
    ensures
        final(out)@ == old(out)@ + shown_value(v),
{
    match v {
        Some(d) => {
            let t = d.to_string();
            push_str_chars(out, t.as_str());
        },
        None => {
            out.push('?');
            assert(final(out)@ =~= old(out)@ + seq!['?']);
        },
    }
}

/// Describes a constraint for the library's list.
pub fn constraint_description(constraint: &NumericConstraint) -> (s: String)
    ensures
        s@ == constraint_text(*constraint),
{
    let mut out: Vec<char> = Vec::new();
    match constraint.mode {
        NumericConstraintMode::Ignore => {
            out.push('—');
        },
        NumericConstraintMode::AtLeast => {
            out.push('≥');
            push_shown(&mut out, constraint.minimum);
        },
        NumericConstraintMode::AtMost => {
            out.push('≤');
            push_shown(&mut out, constraint.maximum);
        },
        NumericConstraintMode::Exactly => {
            out.push('=');
            push_shown(&mut out, constraint.expected);
        },
        NumericConstraintMode::RangeInclusive => {
            push_shown(&mut out, constraint.minimum);
            out.push('…');
            push_shown(&mut out, constraint.maximum);
        },
    }
    assert(out@ =~= constraint_text(*constraint));
    string_of(out.as_slice())
}


/// The templates of `cs`, separated by single spaces.
pub open spec fn joined_templates(cs: Seq<ConditionView>) -> Seq<char>
    decreases cs.len(),
{
    if cs.len() == 0 {
        Seq::empty()
    } else if cs.len() == 1 {
        cs[0].template
    } else {
        joined_templates(cs.drop_last()) + seq![' '] + cs.last().template
    }
}

/// What a library search looks through: the entry's name, its category and
/// its templates, separated by spaces.
pub open spec fn search_text(e: EntryView) -> Seq<char> {
    e.name + seq![' '] + e.category + seq![' '] + joined_templates(e.group.conditions)
}

/// `s[a..b]` is one of the white-space separated words of `s`.
pub open spec fn word_at(s: Seq<char>, a: int, b: int) -> bool {
    &&& 0 <= a < b <= s.len()
    &&& (a == 0 || is_ws(s[a - 1]))
    &&& (b == s.len() || is_ws(s[b]))
    &&& forall|k: int| a <= k < b ==> !is_ws(#[trigger] s[k])
}

/// Every word of `query` occurs somewhere in `text`.
pub open spec fn every_word_found(text: Seq<char>, query: Seq<char>) -> bool {
    forall|a: int, b: int| #[trigger] word_at(query, a, b) ==> contains(text, query.subrange(a, b))
}

fn templates_joined(cs: &Vec<AffixCondition>) -> (out: Vec<char>)
    ensures
        out@ == joined_templates(condition_views(cs@)),
{
    let mut out: Vec<char> = Vec::new();
    let mut i: usize = 0;
    while i < cs.len()
        invariant
            i <= cs@.len(),
            out@ == joined_templates(condition_views(cs@.take(i as int))),
        decreases cs@.len() - i,
    {
        let ghost before = out@;
        if i > 0 {
            out.push(' ');
        }
        push_str_chars(&mut out, cs[i].template.as_str());
        proof {
            let t = condition_views(cs@.take(i + 1));
            assert(t.drop_last() =~= condition_views(cs@.take(i as int)));
            assert(t.last() == cs@[i as int]@);
            if i == 0 {
                assert(t.len() == 1);
                assert(before =~= Seq::<char>::empty());
                assert(out@ =~= t[0].template);
            } else {
                assert(out@ =~= before + seq![' '] + t.last().template);
            }
        }
        i = i + 1;
    }
    assert(cs@.take(cs@.len() as int) =~= cs@);
    out
}

/// Whether every white-space separated word of `query` occurs in `text`.
pub fn all_words_found(text: &[char], query: &[char]) -> (b: bool)
    ensures
        b == every_word_found(text@, query@),
{
    let n = query.len();
    let mut i: usize = 0;
    let mut start: usize = 0;
    let mut in_word = false;
    while i < n
        invariant
            n == query@.len(),
            start <= i <= n,
            in_word ==> start < i && (start == 0 || is_ws(query@[start - 1])) && forall|k: int|
                start <= k < i ==> !is_ws(#[trigger] query@[k]),
            !in_word ==> i == 0 || is_ws(query@[i - 1]),
            forall|a: int, b: int| #[trigger] word_at(query@, a, b) && b < i ==> contains(text@, query@.subrange(a, b)),
        decreases n - i,
    {
        let c = query[i];
        if is_whitespace(c) {
            if in_word {
                proof {
                    assert forall|a: int| #[trigger] word_at(query@, a, i as int) implies a == start by {
                        if a < start {
                            assert(!is_ws(query@[start - 1]));
                        } else if a > start {
                            assert(!is_ws(query@[a - 1]));
                        }
                    }
                }
                let w = slice_vec(query, start, i);
                if !has_infix(text, w.as_slice()) {
                    assert(word_at(query@, start as int, i as int));
                    return false;
                }
            } else {
                proof {
                    assert forall|a: int| !#[trigger] word_at(query@, a, i as int) by {
                        if word_at(query@, a, i as int) {
                            assert(!is_ws(query@[i - 1]));
                        }
                    }
                }
            }
            in_word = false;
        } else if !in_word {
            in_word = true;
            start = i;
        }
        i = i + 1;
    }
    if in_word {
        proof {
            assert forall|a: int| #[trigger] word_at(query@, a, n as int) implies a == start by {
                if a < start {
                    assert(!is_ws(query@[start - 1]));
                } else if a > start {
                    assert(!is_ws(query@[a - 1]));
                }
            }
        }
        let w = slice_vec(query, start, n);
        if !has_infix(text, w.as_slice()) {
            assert(word_at(query@, start as int, n as int));
            return false;
        }
    } else {
        proof {
            assert forall|a: int| !#[trigger] word_at(query@, a, n as int) by {
                if word_at(query@, a, n as int) {
                    assert(!is_ws(query@[n - 1]));
                }
            }
        }
    }
    true
}

/// Whether a library entry is shown for a search: every white-space
/// separated word of the lower-cased query must occur in the lower-cased
/// name, category and templates of the entry. An empty or blank query shows
/// every entry.
pub fn library_entry_matches(entry: &LibraryEntry, query: &str) -> (b: bool)
    ensures
        b == every_word_found(lowercase_text(search_text(entry@)), lowercase_text(query@)),
{
    let mut text = chars_of(entry.name.as_str());
    text.push(' ');
    push_str_chars(&mut text, entry.category.as_str());
    text.push(' ');
    let templates = templates_joined(&entry.group.conditions);
    push_all(&mut text, templates.as_slice());
    assert(text@ =~= search_text(entry@));
    let searchable = string_of(text.as_slice());
    let lowered = str_to_lowercase(searchable.as_str());
    let haystack = chars_of(lowered.as_str());
    let lowered_query = str_to_lowercase(query);
    let words = chars_of(lowered_query.as_str());
    all_words_found(haystack.as_slice(), words.as_slice())
}

/// The name an entry keeps after its details are saved with `typed` as the
/// trimmed name: an empty name keeps the old one.
pub open spec fn saved_name(old_name: Seq<char>, typed: Seq<char>) -> Seq<char> {
    if typed.len() == 0 {
        old_name
    } else {
        typed
    }
}

/// Saves the name and category typed for an entry. Both are trimmed. A name
/// over 1024 bytes or a category over 256 bytes refuses the save and leaves
/// the entry as it was; an empty name keeps the entry's old name; the
/// category is always replaced.
pub fn update_entry_details(entry: &mut LibraryEntry, name: &str, category: &str) -> (saved: bool)
    ensures
        saved == (byte_len(trim(name@)) <= 1024 && byte_len(trim(category@)) <= 256),
        saved ==> final(entry)@ == (EntryView {
            name: saved_name(old(entry)@.name, trim(name@)),
            category: trim(category@),
            game: old(entry)@.game,
            language: old(entry)@.language,
            group: old(entry)@.group,
            is_plan: old(entry)@.is_plan,
        }),
        !saved ==> final(entry)@ == old(entry)@,
{
    let name_chars = chars_of(name);
    let trimmed_name = trim_chars(name_chars.as_slice());
    let category_chars = chars_of(category);
    let trimmed_category = trim_chars(category_chars.as_slice());
    let new_name = string_of(trimmed_name.as_slice());
    let new_category = string_of(trimmed_category.as_slice());
    if new_name.as_str().len() > 1024 || new_category.as_str().len() > 256 {
        return false;
    }
    if trimmed_name.len() > 0 {
        entry.name = new_name;
    }
    entry.category = new_category;
    true
}

} // verus!
