//! A Path of Exile clipboard item dump, parsed into rule-engine input.
//!
//! A clipboard dump carries the whole item, so this module has to do the
//! filtering a screen region used to do: header, requirements and vendor note
//! are rejected structurally, and each physical modifier keeps every line the
//! client rendered for it. Grouping follows the `{ ... }` annotations when the
//! client wrote them and falls back to one line per modifier otherwise.
use vstd::prelude::*;

use crate::classify::ModKind;
use crate::rules::PhysicalLineIdentity;
use crate::sections::{is_separator_chars, is_separator_spec, parse_chars, parse_result_view, parse_spec};
use crate::text::{string_views, lines_of, split_lines, views as line_views, chars_of, decimal, push_decimal, push_str_chars, same_chars, string_of, views};

verus! {

/// What a modifier group holds, as sequences of characters.
pub struct GroupView {
    pub kind: ModKind,
    pub lines: Seq<Seq<char>>,
    pub name: Option<Seq<char>>,
    pub tier: Option<u32>,
}

/// One physical modifier, with every line the client rendered for it.
#[derive(Clone, Debug, PartialEq, Eq)]
pub struct ModGroup {
    /// What kind of modifier this is, from the annotation or an inline marker.
    pub kind: ModKind,
    /// The modifier's lines, in tooltip order, decoration removed.
    pub lines: Vec<String>,
    /// Affix name from the annotation, such as `獨裁者的`.
    pub name: Option<String>,
    /// Tier from the annotation, where the client provided one.
    pub tier: Option<u32>,
}

pub open spec fn opt_string_seq(o: Option<String>) -> Option<Seq<char>> {
    match o {
        Some(s) => Some(s@),
        None => None,
    }
}

impl View for ModGroup {
    type V = GroupView;

    open spec fn view(&self) -> GroupView {
        GroupView {
            kind: self.kind,
            lines: string_views(self.lines@),
            name: opt_string_seq(self.name),
            tier: self.tier,
        }
    }
}

/// What a parsed item holds, as sequences of characters.
pub struct ItemView {
    pub groups: Seq<GroupView>,
    pub rarity: Option<Seq<char>>,
    pub item_level: Option<Seq<char>>,
    pub item_class: Option<Seq<char>>,
    pub corrupted: bool,
    pub grouping_is_authoritative: bool,
}

/// A parsed clipboard item dump.
#[derive(Clone, Debug, PartialEq, Eq)]
pub struct ParsedItem {
    /// Modifier groups, in tooltip order.
    pub groups: Vec<ModGroup>,
    /// Rarity value exactly as the client wrote it.
    pub rarity: Option<String>,
    /// Item level value as written.
    pub item_level: Option<String>,
    /// Item class as written.
    pub item_class: Option<String>,
    /// True when the dump carried a corruption marker.
    pub corrupted: bool,
    /// True when the dump carried `{ ... }` annotations, so grouping is exact
    /// rather than assumed.
    pub grouping_is_authoritative: bool,
}

pub open spec fn group_views(v: Seq<ModGroup>) -> Seq<GroupView> {
    v.map_values(|g: ModGroup| g@)
}

impl View for ParsedItem {
    type V = ItemView;

    open spec fn view(&self) -> ItemView {
        ItemView {
            groups: group_views(self.groups@),
            rarity: opt_string_seq(self.rarity),
            item_level: opt_string_seq(self.item_level),
            item_class: opt_string_seq(self.item_class),
            corrupted: self.corrupted,
            grouping_is_authoritative: self.grouping_is_authoritative,
        }
    }
}

impl Default for ParsedItem {
    fn default() -> (item: Self)
        ensures
            item@.groups.len() == 0,
            item@.rarity is None,
            item@.item_level is None,
            item@.item_class is None,
            !item@.corrupted,
            !item@.grouping_is_authoritative,
    {
        ParsedItem {
            groups: Vec::new(),
            rarity: None,
            item_level: None,
            item_class: None,
            corrupted: false,
            grouping_is_authoritative: false,
        }
    }
}

/// Why a clipboard payload could not be read as an item.
#[derive(Clone, Copy, Debug, PartialEq, Eq, Structural)]
pub enum ItemTextError {
    /// The payload held no dash separator, so it is not an item dump at all.
    NotAnItem,
    /// The payload looked like an item but carried no modifier section.
    NoModifierSection,
}

impl ItemTextError {
    pub open spec fn message_spec(self) -> Seq<char> {
        match self {
            ItemTextError::NotAnItem => "clipboard payload is not a POE item dump"@,
            ItemTextError::NoModifierSection => "item dump carried no recognizable modifier section"@,
        }
    }

    /// The message shown for this error.
    pub fn message(&self) -> (m: &'static str)
        ensures
            m@ == self.message_spec(),
    {
        match self {
            ItemTextError::NotAnItem => "clipboard payload is not a POE item dump",
            ItemTextError::NoModifierSection => "item dump carried no recognizable modifier section",
        }
    }
}

/// Band identity of the group at `index`: `clip:` and the index.
pub open spec fn band_id(index: nat) -> Seq<char> {
    "clip:"@ + decimal(index)
}

/// The rule-engine lines and their identities, for groups given as views.
///
/// Groups are separated by one blank line (none is added after a blank), and
/// every line of group `g` carries band `clip:g`, indexed into the line list
/// that includes the blanks.
pub open spec fn render_spec(groups: Seq<GroupView>) -> (Seq<Seq<char>>, Seq<(nat, Seq<char>)>)
    decreases groups.len(),
{
    if groups.len() == 0 {
        (Seq::empty(), Seq::empty())
    } else {
        let (lines, ids) = render_spec(groups.drop_last());
        let g = groups.last();
        let gi = (groups.len() - 1) as nat;
        let lines1 = if lines.len() > 0 && lines.last().len() > 0 {
            lines.push(Seq::<char>::empty())
        } else {
            lines
        };
        (
            lines1 + g.lines,
            ids + Seq::new(g.lines.len(), |k: int| ((lines1.len() + k) as nat, band_id(gi))),
        )
    }
}

/// Some identity names line `k`.
pub open spec fn carries_band(ids: Seq<(nat, Seq<char>)>, k: int) -> bool {
    exists|i: int| 0 <= i < ids.len() && #[trigger] ids[i].0 == k
}

proof fn lemma_render_indices(groups: Seq<GroupView>)
    ensures
        forall|i: int|
            0 <= i < render_spec(groups).1.len() ==> (#[trigger] render_spec(groups).1[i]).0 < render_spec(groups).0.len(),
    decreases groups.len(),
{
    if groups.len() > 0 {
        let init = groups.drop_last();
        lemma_render_indices(init);
        let (l0, i0) = render_spec(init);
        let (lines, ids) = render_spec(groups);
        let g = groups.last();
        let gi = (groups.len() - 1) as nat;
        let l1 = if l0.len() > 0 && l0.last().len() > 0 {
            l0.push(Seq::<char>::empty())
        } else {
            l0
        };
        assert(lines == l1 + g.lines);
        assert(ids == i0 + Seq::new(g.lines.len(), |k: int| ((l1.len() + k) as nat, band_id(gi))));
        assert forall|i: int| 0 <= i < ids.len() implies (#[trigger] ids[i]).0 < lines.len() by {
            if i < i0.len() {
                assert(ids[i] == i0[i]);
            }
        }
    }
}

/// Lines of the groups, all counted.
pub open spec fn group_line_total(groups: Seq<GroupView>) -> nat
    decreases groups.len(),
{
    if groups.len() == 0 {
        0
    } else {
        group_line_total(groups.drop_last()) + groups.last().lines.len()
    }
}

/// Every group has a line, and no line is empty.
pub open spec fn groups_filled(groups: Seq<GroupView>) -> bool {
    forall|g: int|
        0 <= g < groups.len() ==> (#[trigger] groups[g]).lines.len() >= 1 && forall|j: int|
            0 <= j < groups[g].lines.len() ==> (#[trigger] groups[g].lines[j]).len() > 0
}

/// Lines of different groups carry different bands.
pub proof fn distinct_groups_have_distinct_bands(a: nat, b: nat)
    requires
        a != b,
    ensures
        band_id(a) != band_id(b),
{
    if band_id(a) == band_id(b) {
        let p = "clip:"@;
        assert((p + decimal(a)).skip(p.len() as int) =~= decimal(a));
        assert((p + decimal(b)).skip(p.len() as int) =~= decimal(b));
        crate::library::lemma_decimal_injective(a, b);
    }
}

/// Line `j` of group `g` is rendered at `lines before g + g + j`, and the
/// identity at `lines before g + j` names that line with band `clip:g`.
pub open spec fn line_placed(groups: Seq<GroupView>, g: int, j: int) -> bool {
    let k = group_line_total(groups.take(g)) + j;
    let at = group_line_total(groups.take(g)) + g + j;
    &&& render_spec(groups).1[k] == (at as nat, band_id(g as nat))
    &&& render_spec(groups).0[at] == groups[g].lines[j]
}

/// Rendering lays the groups out in order, one blank line between two
/// groups: line `j` of group `g` stands at `lines before g + g + j`, and
/// the identity at `lines before g + j` names exactly that line with band
/// `clip:g`. There are as many identities as group lines, and one blank
/// fewer than groups.
#[verifier::rlimit(60)]
pub proof fn rendered_lines_follow_groups(groups: Seq<GroupView>)
    requires
        groups_filled(groups),
    ensures
        render_spec(groups).1.len() == group_line_total(groups),
        render_spec(groups).0.len() == group_line_total(groups) + if groups.len() > 0 {
            groups.len() - 1
        } else {
            0
        },
        forall|g: int, j: int|
            0 <= g < groups.len() && 0 <= j < groups[g].lines.len() ==> #[trigger] line_placed(groups, g, j),
        groups.len() > 0 ==> render_spec(groups).0.last().len() > 0,
    decreases groups.len(),
{
    if groups.len() > 0 {
        let init = groups.drop_last();
        assert(groups_filled(init)) by {
            assert forall|g: int| 0 <= g < init.len() implies (#[trigger] init[g]).lines.len() >= 1 && forall|j: int|
                0 <= j < init[g].lines.len() ==> (#[trigger] init[g].lines[j]).len() > 0 by {
                assert(init[g] == groups[g]);
            }
        }
        rendered_lines_follow_groups(init);
        let (l0, i0) = render_spec(init);
        let g = groups.last();
        let n = groups.len() - 1;
        let l1 = if l0.len() > 0 && l0.last().len() > 0 {
            l0.push(Seq::<char>::empty())
        } else {
            l0
        };
        assert(l1.len() == l0.len() + if n > 0 {
            1int
        } else {
            0
        });
        assert(groups.take(n) =~= init);
        assert(g.lines.len() >= 1);
        assert(g.lines.last() == g.lines[g.lines.len() - 1]);
        assert(g.lines[g.lines.len() - 1].len() > 0);
        let newids = Seq::new(g.lines.len(), |k: int| ((l1.len() + k) as nat, band_id(n as nat)));
        assert(render_spec(groups).0 == l1 + g.lines);
        assert(render_spec(groups).1 == i0 + newids);
        assert(group_line_total(groups) == group_line_total(init) + g.lines.len());
        assert forall|gg: int, j: int| 0 <= gg < groups.len() && 0 <= j < groups[gg].lines.len() implies #[trigger] line_placed(
            groups,
            gg,
            j,
        ) by {
            let k = group_line_total(groups.take(gg)) + j;
            let at = group_line_total(groups.take(gg)) + gg + j;
            if gg < n {
                assert(groups.take(gg) =~= init.take(gg));
                assert(groups[gg] == init[gg]);
                assert(init[gg].lines[j] == groups[gg].lines[j]);
                lemma_line_total_prefix(init, gg);
                assert(line_placed(init, gg, j));
                assert(k < i0.len());
                assert(render_spec(groups).1[k] == i0[k]);
                assert(at < l0.len());
                assert(render_spec(groups).0[at] == l0[at]);
            } else {
                assert(gg == n);
                assert(k == i0.len() + j);
                assert(render_spec(groups).1[k] == newids[j]);
                assert(at == l1.len() + j);
                assert(render_spec(groups).0[at] == g.lines[j]);
            }
        }
    }
}

proof fn lemma_line_total_prefix(groups: Seq<GroupView>, g: int)
    requires
        0 <= g < groups.len(),
    ensures
        group_line_total(groups.take(g)) + groups[g].lines.len() <= group_line_total(groups),
    decreases groups.len(),
{
    if g < groups.len() - 1 {
        assert(groups.drop_last().take(g) =~= groups.take(g));
        lemma_line_total_prefix(groups.drop_last(), g);
    } else {
        assert(groups.take(g) =~= groups.drop_last());
    }
}

proof fn lemma_line_total_grows(groups: Seq<GroupView>, a: int, b: int)
    requires
        0 <= a < b <= groups.len(),
    ensures
        group_line_total(groups.take(a)) + groups[a].lines.len() <= group_line_total(groups.take(b)),
    decreases b - a,
{
    assert(groups.take(a + 1).drop_last() =~= groups.take(a));
    assert(groups.take(a + 1).last() == groups[a]);
    if a + 1 < b {
        lemma_line_total_grows(groups, a + 1, b);
    }
}

/// Rendering gives each group line an identity of its own, naming a line of
/// its own, and two of those identities carry the same band exactly when
/// their lines come from the same group.
pub proof fn rendered_bands_follow_groups(groups: Seq<GroupView>, g1: int, j1: int, g2: int, j2: int)
    requires
        groups_filled(groups),
        0 <= g1 < groups.len(),
        0 <= j1 < groups[g1].lines.len(),
        0 <= g2 < groups.len(),
        0 <= j2 < groups[g2].lines.len(),
    ensures
        ({
            let ids = render_spec(groups).1;
            let k1 = group_line_total(groups.take(g1)) + j1;
            let k2 = group_line_total(groups.take(g2)) + j2;
            &&& 0 <= k1 < ids.len()
            &&& 0 <= k2 < ids.len()
            &&& ids[k1].1 == ids[k2].1 <==> g1 == g2
            &&& ids[k1].0 == ids[k2].0 <==> (g1 == g2 && j1 == j2)
            &&& render_spec(groups).0[ids[k1].0 as int] == groups[g1].lines[j1]
        }),
{
    rendered_lines_follow_groups(groups);
    assert(line_placed(groups, g1, j1));
    assert(line_placed(groups, g2, j2));
    if g1 != g2 {
        distinct_groups_have_distinct_bands(g1 as nat, g2 as nat);
    }
    if g1 < g2 {
        lemma_line_total_grows(groups, g1, g2);
    } else if g2 < g1 {
        lemma_line_total_grows(groups, g2, g1);
    }
    lemma_line_total_grows(groups, g1, groups.len() as int);
    lemma_line_total_grows(groups, g2, groups.len() as int);
    assert(groups.take(groups.len() as int) =~= groups);
}

/// Readings never join two modifiers of a rendered item: every line of a
/// readable run of rendered lines carries a band, and all carry the same one,
/// because a blank line stands between any two groups.
pub proof fn rendered_readings_stay_within_one_group(groups: Seq<GroupView>, start: int, count: int, max: int)
    requires
        crate::matching::span_readable(render_spec(groups).0, start, count, max),
    ensures
        forall|k: int| start <= k < start + count ==> #[trigger] carries_band(render_spec(groups).1, k),
        forall|i: int, j: int|
            0 <= i < render_spec(groups).1.len() && 0 <= j < render_spec(groups).1.len() && start
                <= #[trigger] render_spec(groups).1[i].0 < start + count && start <= #[trigger] render_spec(groups).1[j].0
                < start + count ==> render_spec(groups).1[i].1 == render_spec(groups).1[j].1,
    decreases groups.len(),
{
    let (lines, ids) = render_spec(groups);
    if groups.len() == 0 {
        assert(lines.len() == 0);
    } else {
        let init = groups.drop_last();
        let (l0, i0) = render_spec(init);
        let g = groups.last();
        let gi = (groups.len() - 1) as nat;
        let l1 = if l0.len() > 0 && l0.last().len() > 0 {
            l0.push(Seq::<char>::empty())
        } else {
            l0
        };
        assert(lines == l1 + g.lines);
        assert(ids == i0 + Seq::new(g.lines.len(), |k: int| ((l1.len() + k) as nat, band_id(gi))));
        lemma_render_indices(init);
        if start + count <= l0.len() {
            assert(crate::matching::span_readable(l0, start, count, max)) by {
                assert forall|k: int| start <= k < start + count implies !crate::matching::blank(#[trigger] l0[k]) by {
                    assert(lines[k] == l1[k]);
                    assert(l1[k] == l0[k]);
                    assert(!crate::matching::blank(lines[k]));
                }
            }
            rendered_readings_stay_within_one_group(init, start, count, max);
            assert forall|k: int| start <= k < start + count implies #[trigger] carries_band(ids, k) by {
                assert(carries_band(i0, k));
                let i = choose|i: int| 0 <= i < i0.len() && #[trigger] i0[i].0 == k;
                assert(ids[i] == i0[i]);
            }
            assert forall|i: int, j: int|
                0 <= i < ids.len() && 0 <= j < ids.len() && start <= #[trigger] ids[i].0 < start + count && start
                    <= #[trigger] ids[j].0 < start + count implies ids[i].1 == ids[j].1 by {
                assert(i < i0.len());
                assert(j < i0.len());
                assert(ids[i] == i0[i]);
                assert(ids[j] == i0[j]);
            }
        } else if start >= l1.len() {
            assert forall|k: int| start <= k < start + count implies #[trigger] carries_band(ids, k) by {
                let i = i0.len() + (k - l1.len());
                assert(ids[i].0 == k);
            }
            assert forall|i: int, j: int|
                0 <= i < ids.len() && 0 <= j < ids.len() && start <= #[trigger] ids[i].0 < start + count && start
                    <= #[trigger] ids[j].0 < start + count implies ids[i].1 == ids[j].1 by {
                if i < i0.len() {
                    assert(ids[i] == i0[i]);
                }
                if j < i0.len() {
                    assert(ids[j] == i0[j]);
                }
            }
        } else {
            if l1.len() > l0.len() {
                let k = l0.len() as int;
                assert(lines[k] == l1[k]);
                assert(crate::matching::blank(lines[k])) by {
                    assert(lines[k].len() == 0);
                }
            } else {
                let k = l0.len() - 1;
                assert(lines[k] == l0[k]);
                assert(crate::matching::blank(lines[k])) by {
                    assert(lines[k].len() == 0);
                }
            }
        }
    }
}

pub open spec fn identity_views(v: Seq<PhysicalLineIdentity>) -> Seq<(nat, Seq<char>)> {
    v.map_values(|p: PhysicalLineIdentity| (p.line_index as nat, p.physical_band_id@))
}

impl ParsedItem {
    /// Fields that survive any amount of crafting on one physical item: the
    /// item class and the item level.
    pub fn identity(&self) -> (r: (Option<&str>, Option<&str>))
        ensures
            opt_str_view(r.0) == self@.item_class,
            opt_str_view(r.1) == self@.item_level,
    {
        let class = match &self.item_class {
            Some(s) => Some(s.as_str()),
            None => None,
        };
        let level = match &self.item_level {
            Some(s) => Some(s.as_str()),
            None => None,
        };
        (class, level)
    }

    /// True when `other` describes the same physical item.
    ///
    /// Unknown identity on either side counts as a match.
    pub fn is_same_item_as(&self, other: &Self) -> (b: bool)
        ensures
            b == same_item(self@, other@),
    {
        let (left_class, left_level) = self.identity();
        let (right_class, right_level) = other.identity();
        agrees_exec(left_class, right_class) && agrees_exec(left_level, right_level)
    }

    /// Lines to hand to the rule engine, with a blank line between groups.
    pub fn physical_lines(&self) -> (lines: Vec<String>)
        ensures
            string_views(lines@) == render_spec(self@.groups).0,
    {
        self.render().0
    }

    /// Band identities aligned to [`ParsedItem::physical_lines`].
    pub fn line_identities(&self) -> (ids: Vec<PhysicalLineIdentity>)
        ensures
            identity_views(ids@) == render_spec(self@.groups).1,
    {
        self.render().1
    }

    /// Both halves at once.
    pub fn render(&self) -> (r: (Vec<String>, Vec<PhysicalLineIdentity>))
        ensures
            string_views(r.0@) == render_spec(self@.groups).0,
            identity_views(r.1@) == render_spec(self@.groups).1,
    {
        let mut lines: Vec<String> = Vec::new();
        let mut identities: Vec<PhysicalLineIdentity> = Vec::new();
        let mut gi: usize = 0;
        while gi < self.groups.len()
            invariant
                gi <= self.groups@.len(),
                string_views(lines@) == render_spec(group_views(self.groups@).take(gi as int)).0,
                identity_views(identities@) == render_spec(
                    group_views(self.groups@).take(gi as int),
                ).1,
            decreases self.groups@.len() - gi,
        {
            let ghost prev = group_views(self.groups@).take(gi as int);
            assert(group_views(self.groups@).take(gi + 1).drop_last() =~= prev);
            let group = &self.groups[gi];
            if lines.len() > 0 && !lines[lines.len() - 1].as_str().is_empty() {
                lines.push(String::new());
            }
            assert(string_views(lines@).len() == lines@.len());
            let ghost lines1 = string_views(lines@);
            let mut band: Vec<char> = Vec::new();
            push_str_chars(&mut band, "clip:");
            push_decimal(&mut band, gi as u64);
            let mut k: usize = 0;
            let ghost ids0 = identity_views(identities@);
            while k < group.lines.len()
                invariant
                    k <= group.lines@.len(),
                    band@ == band_id(gi as nat),
                    string_views(lines@) == lines1 + string_views(group.lines@).take(k as int),
                    identity_views(identities@) == ids0 + Seq::new(
                        k as nat,
                        |j: int| ((lines1.len() + j) as nat, band_id(gi as nat)),
                    ),
                decreases group.lines@.len() - k,
            {
                let ghost ids_before = identities@;
                let ghost lines_before = lines@;
                let id = PhysicalLineIdentity {
                    line_index: lines.len(),
                    physical_band_id: string_of(band.as_slice()),
                };
                identities.push(id);
                assert(identities@ =~= ids_before.push(id));
                assert(identity_views(identities@) =~= identity_views(ids_before).push(
                    (id.line_index as nat, id.physical_band_id@),
                ));
                let text = group.lines[k].clone();
                lines.push(text);
                assert(lines@ =~= lines_before.push(text));
                assert(string_views(lines@) =~= string_views(lines_before).push(text@));
                assert(string_views(group.lines@).take(k + 1) =~= string_views(group.lines@).take(
                    k as int,
                ).push(group.lines@[k as int]@));
                assert(string_views(lines@) =~= lines1 + string_views(group.lines@).take(k + 1));
                assert(identity_views(identities@) =~= ids0 + Seq::new(
                    (k + 1) as nat,
                    |j: int| ((lines1.len() + j) as nat, band_id(gi as nat)),
                ));
                k = k + 1;
            }
            assert(string_views(group.lines@).take(group.lines@.len() as int) =~= string_views(
                group.lines@,
            ));
            gi = gi + 1;
        }
        assert(group_views(self.groups@).take(self.groups@.len() as int) =~= group_views(
            self.groups@,
        ));
        (lines, identities)
    }
}

pub open spec fn opt_str_view(o: Option<&str>) -> Option<Seq<char>> {
    match o {
        Some(s) => Some(s@),
        None => None,
    }
}

/// Two optional fields agree when both are known and equal, or either is unknown.
pub open spec fn agrees(left: Option<Seq<char>>, right: Option<Seq<char>>) -> bool {
    match (left, right) {
        (Some(l), Some(r)) => l == r,
        _ => true,
    }
}

/// Two dumps describe the same physical item: their item classes agree and
/// their item levels agree, a side that does not know a field agreeing with
/// anything.
pub open spec fn same_item(a: ItemView, b: ItemView) -> bool {
    agrees(a.item_class, b.item_class) && agrees(a.item_level, b.item_level)
}

/// Two dumps that both name an item class must name the same one, as text,
/// and likewise for the item level; a field either side does not know is no
/// evidence either way. The relation is reflexive and symmetric.
pub proof fn same_item_compares_known_fields(a: ItemView, b: ItemView)
    ensures
        same_item(a, b) <==> ((a.item_class is Some && b.item_class is Some ==> a.item_class == b.item_class) && (
        a.item_level is Some && b.item_level is Some ==> a.item_level == b.item_level)),
        same_item(a, a),
        same_item(a, b) == same_item(b, a),
{
}

fn agrees_exec(left: Option<&str>, right: Option<&str>) -> (b: bool)
    ensures
        b == agrees(opt_str_view(left), opt_str_view(right)),
{
    match (left, right) {
        (Some(l), Some(r)) => {
            let lc = chars_of(l);
            let rc = chars_of(r);
            same_chars(lc.as_slice(), rc.as_slice())
        },
        _ => true,
    }
}

/// Parses a clipboard payload into every modifier the client listed.
///
/// Nothing is filtered by kind: [`ModGroup::kind`] is for display only.
pub fn parse(payload: &str) -> (r: Result<ParsedItem, ItemTextError>)
    ensures
        parse_result_view(r) == parse_spec(payload@),
{
    let chars = chars_of(payload);
    parse_chars(chars.as_slice())
}

/// Whether some line of the payload is a dash separator.
pub open spec fn looks_like_item_spec(payload: Seq<char>) -> bool {
    exists|i: int|
        0 <= i < lines_of(payload).len() && is_separator_spec(#[trigger] lines_of(payload)[i])
}

/// For a payload whose carriage returns all stand before a newline (the
/// client writes `\r\n`, and a payload may have none), the cheap guard says
/// yes exactly when the parse does not refuse the payload as not an item. A
/// lone `\r` ends a line for the parse but not for the guard, which reads
/// lines as `str::lines` does, so there the two can differ.
pub proof fn looks_like_item_exactly_when_parse_sees_an_item(payload: Seq<char>)
    requires
        crate::sections::cr_only_before_lf(payload),
    ensures
        looks_like_item_spec(payload) == (parse_spec(payload) != Err::<ItemView, ItemTextError>(ItemTextError::NotAnItem)),
{
    crate::sections::crlf_lines_read_alike(payload);
    crate::sections::parse_refuses_exactly(payload);
}

/// Cheap guard used before timing a copy: does this payload even look like an
/// item the client just wrote?
pub fn looks_like_item(payload: &str) -> (b: bool)
    ensures
        b == looks_like_item_spec(payload@),
{
    let chars = chars_of(payload);
    let lines = split_lines(chars.as_slice());
    let ghost lv = lines_of(payload@);
    let mut i: usize = 0;
    while i < lines.len()
        invariant
            i <= lines@.len(),
            lv == line_views(lines@),
            lv == lines_of(payload@),
            forall|k: int| 0 <= k < i ==> !is_separator_spec(#[trigger] lv[k]),
        decreases lines@.len() - i,
    {
        assert(lv[i as int] == lines@[i as int]@);
        if is_separator_chars(lines[i].as_slice()) {
            assert(is_separator_spec(lv[i as int]));
            return true;
        }
        i = i + 1;
    }
    false
}

} // verus!
