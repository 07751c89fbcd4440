//! Splits a dump into sections and turns the modifier section into groups.
//!
//! The client separates sections with a run of dashes and always lays them out
//! in the same order: header, properties, requirements, sockets, item level,
//! enchantments, implicits, explicits, flags, vendor note. Every rejection rule
//! here is structural — a colon, a full stop, a dash run — rather than a word
//! list that can go stale.
use vstd::prelude::*;

use crate::classify::{
    annotation_name_chars, annotation_name_spec, annotation_tier_chars, annotation_tier_spec,
    classify_annotation_chars, classify_spec, is_annotation_chars, is_annotation_spec, ModKind,
    opt_chars_view, strip_inline_markers_chars, strip_inline_markers_spec,
};
use crate::item::{GroupView, ItemTextError, ItemView, ModGroup, ParsedItem, group_views, opt_string_seq};
use crate::text::string_views;
use crate::text::{lines_of, segments, strip_cr, split_lines, copy_lines, copy_chars, lines_to_strings, string_of,
    chars_of, contains, ends_with, first_index, has_infix, has_prefix, has_suffix, is_whitespace,
    is_ws, leading_ws, lemma_first_index, lower, lowercase_chars, lowercase_of, same_chars,
    slice_vec, starts_with, trim, trim_chars, trim_start, views, char_to_lowercase,
};

verus! {

/// Section keys, compared against compacted lines.
pub open spec fn item_class_keys() -> Seq<Seq<char>> {
    seq!["itemclass:"@, "物品種類:"@, "物品种类:"@, "物品類別:"@, "物品类别:"@]
}

pub open spec fn rarity_keys() -> Seq<Seq<char>> {
    seq!["rarity:"@, "稀有度:"@]
}

pub open spec fn item_level_keys() -> Seq<Seq<char>> {
    seq!["itemlevel:"@, "物品等級:"@, "物品等级:"@]
}

/// The Traditional Chinese client says 已汙染; 已腐化 is kept as an alias.
pub open spec fn corrupted_keys() -> Seq<Seq<char>> {
    seq!["corrupted"@, "已汙染"@, "已污染"@, "已腐化"@]
}

pub open spec fn trailer_keys() -> Seq<Seq<char>> {
    seq!["note:"@, "備註:"@, "备注:"@, "出售"@, "sellprice"@]
}

/// Standalone lines that are status flags rather than modifiers.
pub open spec fn flag_lines() -> Seq<Seq<char>> {
    seq![
        "corrupted"@,
        "unidentified"@,
        "mirrored"@,
        "split"@,
        "synthesiseditem"@,
        "fractureditem"@,
        "desecrated"@,
        "shaperitem"@,
        "elderitem"@,
        "crusaderitem"@,
        "redeemeritem"@,
        "hunteritem"@,
        "warloriditem"@,
        "searingexarchitem"@,
        "eaterofworldsitem"@,
        "影響物品"@,
        "開創者物品"@,
        "尊爺物品"@,
        "已汙染"@,
        "已污染"@,
        "已腐化"@,
        "未鑑定"@,
        "未鉴定"@,
        "已複製"@,
        "已复制"@,
        "分裂的物品"@,
        "破裂之物"@,
    ]
}

/// Phrases that only ever appear in usage or flavour text.
pub open spec fn prose_markers() -> Seq<Seq<char>> {
    seq!["右鍵點擊"@, "右键点击"@, "right click"@, "place into"@]
}

pub fn item_class_keys_exec() -> (v: Vec<Vec<char>>)
    ensures
        views(v@) == item_class_keys(),
{
    let v = vec![
        chars_of("itemclass:"),
        chars_of("物品種類:"),
        chars_of("物品种类:"),
        chars_of("物品類別:"),
        chars_of("物品类别:"),
    ];
    assert(views(v@) =~= item_class_keys());
    v
}

pub fn rarity_keys_exec() -> (v: Vec<Vec<char>>)
    ensures
        views(v@) == rarity_keys(),
{
    let v = vec![chars_of("rarity:"), chars_of("稀有度:")];
    assert(views(v@) =~= rarity_keys());
    v
}

pub fn item_level_keys_exec() -> (v: Vec<Vec<char>>)
    ensures
        views(v@) == item_level_keys(),
{
    let v = vec![chars_of("itemlevel:"), chars_of("物品等級:"), chars_of("物品等级:")];
    assert(views(v@) =~= item_level_keys());
    v
}

pub fn corrupted_keys_exec() -> (v: Vec<Vec<char>>)
    ensures
        views(v@) == corrupted_keys(),
{
    let v = vec![chars_of("corrupted"), chars_of("已汙染"), chars_of("已污染"), chars_of("已腐化")];
    assert(views(v@) =~= corrupted_keys());
    v
}

pub fn trailer_keys_exec() -> (v: Vec<Vec<char>>)
    ensures
        views(v@) == trailer_keys(),
{
    let v = vec![
        chars_of("note:"),
        chars_of("備註:"),
        chars_of("备注:"),
        chars_of("出售"),
        chars_of("sellprice"),
    ];
    assert(views(v@) =~= trailer_keys());
    v
}

pub fn flag_lines_exec() -> (v: Vec<Vec<char>>)
    ensures
        views(v@) == flag_lines(),
{
    let v = vec![
        chars_of("corrupted"),
        chars_of("unidentified"),
        chars_of("mirrored"),
        chars_of("split"),
        chars_of("synthesiseditem"),
        chars_of("fractureditem"),
        chars_of("desecrated"),
        chars_of("shaperitem"),
        chars_of("elderitem"),
        chars_of("crusaderitem"),
        chars_of("redeemeritem"),
        chars_of("hunteritem"),
        chars_of("warloriditem"),
        chars_of("searingexarchitem"),
        chars_of("eaterofworldsitem"),
        chars_of("影響物品"),
        chars_of("開創者物品"),
        chars_of("尊爺物品"),
        chars_of("已汙染"),
        chars_of("已污染"),
        chars_of("已腐化"),
        chars_of("未鑑定"),
        chars_of("未鉴定"),
        chars_of("已複製"),
        chars_of("已复制"),
        chars_of("分裂的物品"),
        chars_of("破裂之物"),
    ];
    assert(views(v@) =~= flag_lines());
    v
}

pub fn prose_markers_exec() -> (v: Vec<Vec<char>>)
    ensures
        views(v@) == prose_markers(),
{
    let v = vec![
        chars_of("右鍵點擊"),
        chars_of("右键点击"),
        chars_of("right click"),
        chars_of("place into"),
    ];
    assert(views(v@) =~= prose_markers());
    v
}

/// A run of at least four dashes, once trimmed.
pub open spec fn is_separator_spec(line: Seq<char>) -> bool {
    let t = trim(line);
    t.len() >= 4 && forall|i: int| 0 <= i < t.len() ==> #[trigger] t[i] == '-'
}

pub fn is_separator_chars(line: &[char]) -> (b: bool)
    ensures
        b == is_separator_spec(line@),
{
    let t = trim_chars(line);
    if t.len() < 4 {
        return false;
    }
    let mut i: usize = 0;
    while i < t.len()
        invariant
            t@ == trim(line@),
            i <= t@.len(),
            forall|k: int| 0 <= k < i ==> t@[k] == '-',
        decreases t@.len() - i,
    {
        if t[i] != '-' {
            assert(trim(line@)[i as int] != '-');
            return false;
        }
        i = i + 1;
    }
    true
}

/// True for the run of dashes the client uses between sections.
pub fn is_separator(line: &str) -> (b: bool)
    ensures
        b == is_separator_spec(line@),
{
    let chars = chars_of(line);
    is_separator_chars(chars.as_slice())
}

/// The full-width colon folded to an ASCII one.
pub open spec fn fold_colon(c: char) -> char {
    if c == '\u{ff1a}' {
        ':'
    } else {
        c
    }
}

/// Whitespace removed, the full-width colon folded, and everything lower-cased.
pub open spec fn compact_form(s: Seq<char>) -> Seq<char>
    decreases s.len(),
{
    if s.len() == 0 {
        Seq::empty()
    } else if is_ws(s.last()) {
        compact_form(s.drop_last())
    } else {
        compact_form(s.drop_last()) + lowercase_of(fold_colon(s.last()))
    }
}

/// Collapses whitespace, folds the full-width colon, and lower-cases.
pub fn compact_chars(s: &[char]) -> (out: Vec<char>)
    ensures
        out@ == compact_form(s@),
{
    let mut out: Vec<char> = Vec::new();
    let mut i: usize = 0;
    while i < s.len()
        invariant
            i <= s@.len(),
            out@ == compact_form(s@.take(i as int)),
        decreases s@.len() - i,
    {
        assert(s@.take(i + 1).drop_last() =~= s@.take(i as int));
        let c = s[i];
        if !is_whitespace(c) {
            let folded = if c == '\u{ff1a}' {
                ':'
            } else {
                c
            };
            let l = char_to_lowercase(folded);
            let ghost before = out@;
            let mut k: usize = 0;
            while k < l.len()
                invariant
                    k <= l@.len(),
                    out@ == before + l@.take(k as int),
                decreases l@.len() - k,
            {
                out.push(l[k]);
                assert(l@.take(k + 1) =~= l@.take(k as int).push(l@[k as int]));
                k = k + 1;
            }
            assert(l@.take(l@.len() as int) =~= l@);
        }
        i = i + 1;
    }
    assert(s@.take(s@.len() as int) =~= s@);
    out
}

/// A line with whitespace removed, the full-width colon folded to `:` and
/// every character lower-cased, the form that section keys are compared in.
pub fn compact(line: &str) -> (out: String)
    ensures
        out@ == compact_form(line@),
{
    let chars = chars_of(line);
    let folded = compact_chars(chars.as_slice());
    string_of(folded.as_slice())
}

pub open spec fn starts_with_any(s: Seq<char>, keys: Seq<Seq<char>>) -> bool {
    exists|i: int| 0 <= i < keys.len() && starts_with(s, #[trigger] keys[i])
}

pub fn starts_with_any_exec(s: &[char], keys: &Vec<Vec<char>>) -> (b: bool)
    ensures
        b == starts_with_any(s@, views(keys@)),
{
    let mut i: usize = 0;
    while i < keys.len()
        invariant
            i <= keys@.len(),
            forall|k: int| 0 <= k < i ==> !starts_with(s@, #[trigger] views(keys@)[k]),
        decreases keys@.len() - i,
    {
        if has_prefix(s, keys[i].as_slice()) {
            assert(starts_with(s@, views(keys@)[i as int]));
            return true;
        }
        i = i + 1;
    }
    false
}

/// Membership of a sequence in a list, by equality.
pub open spec fn is_member(s: Seq<char>, list: Seq<Seq<char>>) -> bool {
    exists|i: int| 0 <= i < list.len() && #[trigger] list[i] == s
}

pub fn member_exec(s: &[char], list: &Vec<Vec<char>>) -> (b: bool)
    ensures
        b == is_member(s@, views(list@)),
{
    let mut i: usize = 0;
    while i < list.len()
        invariant
            i <= list@.len(),
            forall|k: int| 0 <= k < i ==> #[trigger] views(list@)[k] != s@,
        decreases list@.len() - i,
    {
        if same_chars(list[i].as_slice(), s) {
            assert(views(list@)[i as int] == s@);
            return true;
        }
        i = i + 1;
    }
    false
}

pub open spec fn contains_any(s: Seq<char>, list: Seq<Seq<char>>) -> bool {
    exists|i: int| 0 <= i < list.len() && contains(s, #[trigger] list[i])
}

pub fn contains_any_exec(s: &[char], list: &Vec<Vec<char>>) -> (b: bool)
    ensures
        b == contains_any(s@, views(list@)),
{
    let mut i: usize = 0;
    while i < list.len()
        invariant
            i <= list@.len(),
            forall|k: int| 0 <= k < i ==> !contains(s@, #[trigger] views(list@)[k]),
        decreases list@.len() - i,
    {
        if has_infix(s, list[i].as_slice()) {
            assert(contains(s@, views(list@)[i as int]));
            return true;
        }
        i = i + 1;
    }
    false
}

pub open spec fn is_colon(c: char) -> bool {
    c == ':' || c == '\u{ff1a}'
}

/// Index of the first ASCII or full-width colon.
pub open spec fn first_colon(s: Seq<char>) -> Option<int>
    decreases s.len(),
{
    if s.len() == 0 {
        None
    } else if is_colon(s[0]) {
        Some(0)
    } else {
        match first_colon(s.drop_first()) {
            Some(i) => Some(i + 1),
            None => None,
        }
    }
}

fn first_colon_exec(s: &[char]) -> (r: Option<usize>)
    ensures
        match r {
            Some(i) => i < s@.len() && first_colon(s@) == Some(i as int),
            None => first_colon(s@) is None,
        },
{
    let mut i: usize = 0;
    assert(s@.skip(0) =~= s@);
    while i < s.len()
        invariant
            i <= s@.len(),
            first_colon(s@) == match first_colon(s@.skip(i as int)) {
                Some(k) => Some(k + i),
                None => None,
            },
        decreases s@.len() - i,
    {
        assert(s@.skip(i as int).drop_first() =~= s@.skip(i + 1));
        if s[i] == ':' || s[i] == '\u{ff1a}' {
            return Some(i);
        }
        i = i + 1;
    }
    None
}

/// The value after the first colon, trimmed, of a line whose compacted form
/// starts with one of `keys`.
pub open spec fn value_after_key(line: Seq<char>, keys: Seq<Seq<char>>) -> Option<Seq<char>> {
    if !starts_with_any(compact_form(line), keys) {
        None
    } else {
        match first_colon(line) {
            Some(i) => Some(trim(line.skip(i + 1))),
            None => None,
        }
    }
}

pub fn value_after_key_exec(line: &[char], keys: &Vec<Vec<char>>) -> (r: Option<Vec<char>>)
    ensures
        opt_chars_view(r) == value_after_key(line@, views(keys@)),
{
    let compacted = compact_chars(line);
    if !starts_with_any_exec(compacted.as_slice(), keys) {
        return None;
    }
    let n = line.len();
    match first_colon_exec(line) {
        Some(i) => {
            let rest = slice_vec(line, i + 1, n);
            assert(rest@ =~= line@.skip(i + 1));
            Some(trim_chars(rest.as_slice()))
        },
        None => None,
    }
}

/// A status-flag line.
pub open spec fn is_flag(line: Seq<char>) -> bool {
    is_member(compact_form(line), flag_lines())
}

pub fn is_flag_exec(line: &[char], flags: &Vec<Vec<char>>) -> (b: bool)
    requires
        views(flags@) == flag_lines(),
    ensures
        b == is_flag(line@),
{
    let compacted = compact_chars(line);
    member_exec(compacted.as_slice(), flags)
}

/// A parenthetical rider on the modifier above it; both bracket widths occur.
pub open spec fn is_decoration_line(line: Seq<char>) -> bool {
    let t = trim_start(line);
    t.len() > 0 && (t[0] == '(' || t[0] == '\u{ff08}')
}

pub fn is_decoration_exec(line: &[char]) -> (b: bool)
    ensures
        b == is_decoration_line(line@),
{
    let start = leading_ws(line);
    start < line.len() && (line[start] == '(' || line[start] == '\u{ff08}')
}

/// A parenthetical rider on the modifier above it, opened by either the
/// ASCII or the full-width bracket.
pub fn is_decoration(line: &str) -> (b: bool)
    ensures
        b == is_decoration_line(line@),
{
    let chars = chars_of(line);
    is_decoration_exec(chars.as_slice())
}

/// A `key: value` line, which is a property rather than a modifier.
pub open spec fn is_property(line: Seq<char>) -> bool {
    exists|i: int| 0 <= i < line.len() && is_colon(#[trigger] line[i])
}

pub fn is_property_exec(line: &[char]) -> (b: bool)
    ensures
        b == is_property(line@),
{
    let mut i: usize = 0;
    while i < line.len()
        invariant
            i <= line@.len(),
            forall|k: int| 0 <= k < i ==> !is_colon(#[trigger] line@[k]),
        decreases line@.len() - i,
    {
        if line[i] == ':' || line[i] == '\u{ff1a}' {
            return true;
        }
        i = i + 1;
    }
    false
}

/// A line that names how the item is used.
pub open spec fn names_a_usage(line: Seq<char>) -> bool {
    contains_any(lower(trim(line)), prose_markers())
}

pub fn names_a_usage_exec(line: &[char], prose: &Vec<Vec<char>>) -> (b: bool)
    requires
        views(prose@) == prose_markers(),
    ensures
        b == names_a_usage(line@),
{
    let t = trim_chars(line);
    let lowered = lowercase_chars(t.as_slice());
    contains_any_exec(lowered.as_slice(), prose)
}

/// Usage or flavour text: a usage phrase, or a line ending in a full stop or `!`.
pub open spec fn is_prose(line: Seq<char>) -> bool {
    let t = trim(line);
    names_a_usage(t) || (t.len() > 0 && (t.last() == '。' || t.last() == '.' || t.last() == '!'))
}

pub fn is_prose_exec(line: &[char], prose: &Vec<Vec<char>>) -> (b: bool)
    requires
        views(prose@) == prose_markers(),
    ensures
        b == is_prose(line@),
{
    let t = trim_chars(line);
    if names_a_usage_exec(t.as_slice(), prose) {
        return true;
    }
    t.len() > 0 && (t[t.len() - 1] == '。' || t[t.len() - 1] == '.' || t[t.len() - 1] == '!')
}

/// `"\r\n"` and lone `'\r'` both become `'\n'`.
pub open spec fn normalize_newlines(s: Seq<char>) -> Seq<char>
    decreases s.len(),
{
    if s.len() == 0 {
        Seq::empty()
    } else if s[0] == '\r' && s.len() > 1 && s[1] == '\n' {
        seq!['\n'] + normalize_newlines(s.skip(2))
    } else if s[0] == '\r' {
        seq!['\n'] + normalize_newlines(s.drop_first())
    } else {
        seq![s[0]] + normalize_newlines(s.drop_first())
    }
}

pub fn normalize_newlines_exec(s: &[char]) -> (out: Vec<char>)
    ensures
        out@ == normalize_newlines(s@),
{
    let mut out: Vec<char> = Vec::new();
    let mut i: usize = 0;
    let n = s.len();
    assert(s@.skip(0) =~= s@);
    while i < n
        invariant
            n == s@.len(),
            i <= n,
            normalize_newlines(s@) == out@ + normalize_newlines(s@.skip(i as int)),
        decreases n - i,
    {
        let ghost rest = s@.skip(i as int);
        if s[i] == '\r' && i + 1 < n && s[i + 1] == '\n' {
            assert(rest.skip(2) =~= s@.skip(i + 2));
            out.push('\n');
            assert(normalize_newlines(s@) =~= out@ + normalize_newlines(s@.skip(i + 2)));
            i = i + 2;
        } else if s[i] == '\r' {
            assert(rest.drop_first() =~= s@.skip(i + 1));
            out.push('\n');
            assert(normalize_newlines(s@) =~= out@ + normalize_newlines(s@.skip(i + 1)));
            i = i + 1;
        } else {
            assert(rest.drop_first() =~= s@.skip(i + 1));
            out.push(s[i]);
            assert(normalize_newlines(s@) =~= out@ + normalize_newlines(s@.skip(i + 1)));
            i = i + 1;
        }
    }
    assert(s@.skip(n as int) =~= Seq::<char>::empty());
    assert(out@ + Seq::<char>::empty() =~= out@);
    out
}

/// Sections of a line list: separators split, other lines are trimmed and
/// kept when non-empty.
pub open spec fn split_sections(lines: Seq<Seq<char>>) -> Seq<Seq<Seq<char>>>
    decreases lines.len(),
{
    if lines.len() == 0 {
        seq![Seq::<Seq<char>>::empty()]
    } else {
        let init = split_sections(lines.drop_last());
        let l = lines.last();
        if is_separator_spec(l) {
            init.push(Seq::<Seq<char>>::empty())
        } else if trim(l).len() == 0 {
            init
        } else {
            init.update(init.len() - 1, init.last().push(trim(l)))
        }
    }
}

pub proof fn lemma_split_sections_nonempty(lines: Seq<Seq<char>>)
    ensures
        split_sections(lines).len() >= 1,
    decreases lines.len(),
{
    if lines.len() > 0 {
        lemma_split_sections_nonempty(lines.drop_last());
    }
}

pub open spec fn is_content(l: Seq<char>) -> bool {
    !is_separator_spec(l) && trim(l).len() > 0
}

/// The value of the last content line carrying one of `keys`.
pub open spec fn last_value(lines: Seq<Seq<char>>, keys: Seq<Seq<char>>) -> Option<Seq<char>>
    decreases lines.len(),
{
    if lines.len() == 0 {
        None
    } else {
        let l = lines.last();
        if is_content(l) && value_after_key(trim(l), keys) is Some {
            value_after_key(trim(l), keys)
        } else {
            last_value(lines.drop_last(), keys)
        }
    }
}

pub open spec fn any_corrupted(lines: Seq<Seq<char>>) -> bool {
    exists|i: int|
        0 <= i < lines.len() && is_content(#[trigger] lines[i]) && starts_with_any(
            compact_form(trim(lines[i])),
            corrupted_keys(),
        )
}

pub open spec fn section_has_item_level(sec: Seq<Seq<char>>) -> bool {
    exists|j: int| 0 <= j < sec.len() && starts_with_any(compact_form(#[trigger] sec[j]), item_level_keys())
}

/// Index of the first section holding an item-level line.
pub open spec fn first_item_level_section(secs: Seq<Seq<Seq<char>>>) -> Option<int>
    decreases secs.len(),
{
    if secs.len() == 0 {
        None
    } else if section_has_item_level(secs[0]) {
        Some(0)
    } else {
        match first_item_level_section(secs.drop_first()) {
            Some(k) => Some(k + 1),
            None => None,
        }
    }
}

/// Modifier sections start after the item-level section, or at the start.
pub open spec fn modifier_start(secs: Seq<Seq<Seq<char>>>) -> int {
    match first_item_level_section(secs) {
        Some(k) => k + 1,
        None => 0,
    }
}

pub open spec fn all_flags(sec: Seq<Seq<char>>) -> bool {
    forall|j: int| 0 <= j < sec.len() ==> is_flag(#[trigger] sec[j])
}

pub open spec fn all_prose(sec: Seq<Seq<char>>) -> bool {
    forall|j: int| 0 <= j < sec.len() ==> is_prose(#[trigger] sec[j])
}

pub open spec fn all_properties(sec: Seq<Seq<char>>) -> bool {
    forall|j: int| 0 <= j < sec.len() ==> is_property(#[trigger] sec[j])
}

/// A section that can hold modifiers: non-empty, not the vendor note, and not
/// made entirely of flags, prose or properties.
pub open spec fn keeps_section(sec: Seq<Seq<char>>) -> bool {
    sec.len() > 0 && !starts_with_any(compact_form(sec[0]), trailer_keys()) && !all_flags(sec)
        && !all_prose(sec) && !all_properties(sec)
}

pub open spec fn kept_sections(secs: Seq<Seq<Seq<char>>>) -> Seq<Seq<Seq<char>>>
    decreases secs.len(),
{
    if secs.len() == 0 {
        Seq::empty()
    } else if keeps_section(secs.last()) {
        kept_sections(secs.drop_last()).push(secs.last())
    } else {
        kept_sections(secs.drop_last())
    }
}

pub open spec fn modifier_sections(secs: Seq<Seq<Seq<char>>>) -> Seq<Seq<Seq<char>>> {
    kept_sections(secs.skip(modifier_start(secs)))
}

pub open spec fn has_annotation(sec: Seq<Seq<char>>) -> bool {
    exists|j: int| 0 <= j < sec.len() && is_annotation_spec(#[trigger] sec[j])
}

pub open spec fn any_annotated(cands: Seq<Seq<Seq<char>>>) -> bool {
    exists|i: int| 0 <= i < cands.len() && has_annotation(#[trigger] cands[i])
}

/// One step of annotation grouping: an annotation opens a group, and the
/// lines beneath it join that group.
pub open spec fn annotation_step(groups: Seq<GroupView>, line: Seq<char>) -> Seq<GroupView> {
    if is_annotation_spec(line) {
        groups.push(
            GroupView {
                kind: classify_spec(line),
                lines: Seq::empty(),
                name: annotation_name_spec(line),
                tier: annotation_tier_spec(line),
            },
        )
    } else if groups.len() == 0 || is_decoration_line(line) || is_flag(line) {
        groups
    } else {
        let (text, inline) = strip_inline_markers_spec(line);
        if text.len() == 0 {
            groups
        } else {
            let g = groups.last();
            let kind = match inline {
                Some(k) => if k != g.kind && g.lines.len() == 0 {
                    k
                } else {
                    g.kind
                },
                None => g.kind,
            };
            groups.update(
                groups.len() - 1,
                GroupView { kind: kind, lines: g.lines.push(text), name: g.name, tier: g.tier },
            )
        }
    }
}

pub open spec fn groups_from_annotations(lines: Seq<Seq<char>>) -> Seq<GroupView>
    decreases lines.len(),
{
    if lines.len() == 0 {
        Seq::empty()
    } else {
        annotation_step(groups_from_annotations(lines.drop_last()), lines.last())
    }
}

/// One group per line of an unannotated section.
pub open spec fn groups_from_layout(lines: Seq<Seq<char>>, positional: ModKind) -> Seq<GroupView>
    decreases lines.len(),
{
    if lines.len() == 0 {
        Seq::empty()
    } else {
        let init = groups_from_layout(lines.drop_last(), positional);
        let l = lines.last();
        if is_decoration_line(l) || is_flag(l) || names_a_usage(l) {
            init
        } else {
            let (text, inline) = strip_inline_markers_spec(l);
            if text.len() == 0 {
                init
            } else {
                init.push(
                    GroupView {
                        kind: match inline {
                            Some(k) => k,
                            None => positional,
                        },
                        lines: seq![text],
                        name: None,
                        tier: None,
                    },
                )
            }
        }
    }
}

pub open spec fn positional_kind(index: int, last: int, annotated: bool) -> ModKind {
    if annotated || index != last {
        ModKind::Implicit
    } else {
        ModKind::Explicit
    }
}

pub open spec fn section_groups(sec: Seq<Seq<char>>, index: int, last: int, annotated: bool) -> Seq<
    GroupView,
> {
    if has_annotation(sec) {
        groups_from_annotations(sec)
    } else {
        groups_from_layout(sec, positional_kind(index, last, annotated))
    }
}

pub open spec fn all_groups(cands: Seq<Seq<Seq<char>>>, n: int, last: int, annotated: bool) -> Seq<
    GroupView,
>
    decreases n,
{
    if n <= 0 {
        Seq::empty()
    } else {
        all_groups(cands, n - 1, last, annotated) + section_groups(cands[n - 1], n - 1, last, annotated)
    }
}

pub open spec fn nonempty_groups(gs: Seq<GroupView>) -> Seq<GroupView>
    decreases gs.len(),
{
    if gs.len() == 0 {
        Seq::empty()
    } else if gs.last().lines.len() > 0 {
        nonempty_groups(gs.drop_last()).push(gs.last())
    } else {
        nonempty_groups(gs.drop_last())
    }
}

pub open spec fn last_index(n: int) -> int {
    if n > 0 {
        n - 1
    } else {
        0
    }
}

/// What `parse` yields for a payload.
pub open spec fn parse_spec(payload: Seq<char>) -> Result<ItemView, ItemTextError> {
    let lines = lines_of(normalize_newlines(payload));
    if !(exists|i: int| 0 <= i < lines.len() && is_separator_spec(#[trigger] lines[i])) {
        Err(ItemTextError::NotAnItem)
    } else {
        let secs = split_sections(lines);
        let cands = modifier_sections(secs);
        let annotated = any_annotated(cands);
        let groups = nonempty_groups(
            all_groups(cands, cands.len() as int, last_index(cands.len() as int), annotated),
        );
        if groups.len() == 0 {
            Err(ItemTextError::NoModifierSection)
        } else {
            Ok(
                ItemView {
                    groups: groups,
                    rarity: last_value(lines, rarity_keys()),
                    item_level: last_value(lines, item_level_keys()),
                    item_class: last_value(lines, item_class_keys()),
                    corrupted: any_corrupted(lines),
                    grouping_is_authoritative: annotated,
                },
            )
        }
    }
}

/// The modifier groups of a payload that a parse keeps.
pub open spec fn surviving_groups(payload: Seq<char>) -> Seq<GroupView> {
    let lines = lines_of(normalize_newlines(payload));
    let cands = modifier_sections(split_sections(lines));
    nonempty_groups(all_groups(cands, cands.len() as int, last_index(cands.len() as int), any_annotated(cands)))
}

/// Some line of the payload, once `\r\n` and `\r` are read as `\n`, is a
/// separator.
pub open spec fn has_separator_line(payload: Seq<char>) -> bool {
    exists|i: int|
        0 <= i < lines_of(normalize_newlines(payload)).len() && is_separator_spec(
            #[trigger] lines_of(normalize_newlines(payload))[i],
        )
}

/// A payload is not an item exactly when no line is a separator; an item
/// with no surviving modifier group has no modifier section; otherwise the
/// parse keeps exactly the surviving groups.
pub proof fn parse_refuses_exactly(payload: Seq<char>)
    ensures
        (parse_spec(payload) == Err::<ItemView, ItemTextError>(ItemTextError::NotAnItem)) == !has_separator_line(payload),
        (parse_spec(payload) == Err::<ItemView, ItemTextError>(ItemTextError::NoModifierSection)) == (has_separator_line(
            payload,
        ) && surviving_groups(payload).len() == 0),
        parse_spec(payload) matches Ok(item) ==> item.groups == surviving_groups(payload) && item.groups.len() > 0,
{
}

/// How a kept modifier line looks: it begins with a character that is
/// neither white space, nor the opening bracket of a rider, nor the brace of
/// an annotation, and no inline or property marker is left at its end for
/// marker stripping to remove.
pub open spec fn kept_form(t: Seq<char>) -> bool {
    &&& t.len() > 0 && !is_ws(t[0]) && t[0] != '(' && t[0] != '\u{ff08}' && t[0] != '{'
    &&& crate::classify::strip_markers_from(t, None).0 == t
}

/// Every line of every group has the kept form.
pub open spec fn lines_kept_form(gs: Seq<GroupView>) -> bool {
    forall|g: int, j: int| 0 <= g < gs.len() && 0 <= j < gs[g].lines.len() ==> kept_form(#[trigger] gs[g].lines[j])
}

proof fn lemma_kept_text(l: Seq<char>)
    requires
        !is_annotation_spec(l),
        !is_decoration_line(l),
        strip_inline_markers_spec(l).0.len() > 0,
    ensures
        kept_form(strip_inline_markers_spec(l).0),
{
    crate::classify::lemma_stripped_start(l);
    crate::classify::lemma_strip_settled(trim(l), None, None);
}

proof fn lemma_annotation_groups_kept(lines: Seq<Seq<char>>)
    ensures
        lines_kept_form(groups_from_annotations(lines)),
    decreases lines.len(),
{
    if lines.len() > 0 {
        let prev = groups_from_annotations(lines.drop_last());
        lemma_annotation_groups_kept(lines.drop_last());
        let line = lines.last();
        let next = groups_from_annotations(lines);
        if is_annotation_spec(line) {
            assert forall|g: int, j: int| 0 <= g < next.len() && 0 <= j < next[g].lines.len() implies kept_form(
                #[trigger] next[g].lines[j],
            ) by {
                assert(g < prev.len());
                assert(next[g] == prev[g]);
            }
        } else if prev.len() == 0 || is_decoration_line(line) || is_flag(line) {
        } else {
            let text = strip_inline_markers_spec(line).0;
            if text.len() > 0 {
                lemma_kept_text(line);
                assert forall|g: int, j: int| 0 <= g < next.len() && 0 <= j < next[g].lines.len() implies kept_form(
                    #[trigger] next[g].lines[j],
                ) by {
                    if g < prev.len() - 1 {
                        assert(next[g] == prev[g]);
                    } else {
                        assert(next[g].lines == prev[g].lines.push(text));
                        if j < prev[g].lines.len() {
                            assert(next[g].lines[j] == prev[g].lines[j]);
                        }
                    }
                }
            }
        }
    }
}

proof fn lemma_layout_groups_kept(lines: Seq<Seq<char>>, positional: ModKind)
    requires
        forall|k: int| 0 <= k < lines.len() ==> !is_annotation_spec(#[trigger] lines[k]),
    ensures
        lines_kept_form(groups_from_layout(lines, positional)),
    decreases lines.len(),
{
    if lines.len() > 0 {
        let init = groups_from_layout(lines.drop_last(), positional);
        assert forall|k: int| 0 <= k < lines.drop_last().len() implies !is_annotation_spec(#[trigger] lines.drop_last()[k]) by {
            assert(lines.drop_last()[k] == lines[k]);
        }
        lemma_layout_groups_kept(lines.drop_last(), positional);
        let l = lines.last();
        let next = groups_from_layout(lines, positional);
        if !(is_decoration_line(l) || is_flag(l) || names_a_usage(l)) {
            let text = strip_inline_markers_spec(l).0;
            if text.len() > 0 {
                assert(!is_annotation_spec(lines[lines.len() - 1]));
                lemma_kept_text(l);
                assert forall|g: int, j: int| 0 <= g < next.len() && 0 <= j < next[g].lines.len() implies kept_form(
                    #[trigger] next[g].lines[j],
                ) by {
                    if g < init.len() {
                        assert(next[g] == init[g]);
                    }
                }
            }
        }
    }
}

proof fn lemma_all_groups_kept(cands: Seq<Seq<Seq<char>>>, n: int, last: int, annotated: bool)
    requires
        n <= cands.len(),
    ensures
        lines_kept_form(all_groups(cands, n, last, annotated)),
    decreases n,
{
    if n > 0 {
        lemma_all_groups_kept(cands, n - 1, last, annotated);
        let sec = cands[n - 1];
        if has_annotation(sec) {
            lemma_annotation_groups_kept(sec);
        } else {
            lemma_layout_groups_kept(sec, positional_kind(n - 1, last, annotated));
        }
        let a = all_groups(cands, n - 1, last, annotated);
        let b = section_groups(sec, n - 1, last, annotated);
        let all = all_groups(cands, n, last, annotated);
        assert(all == a + b);
        assert forall|g: int, j: int| 0 <= g < all.len() && 0 <= j < all[g].lines.len() implies kept_form(
            #[trigger] all[g].lines[j],
        ) by {
            if g < a.len() {
                assert(all[g] == a[g]);
            } else {
                assert(all[g] == b[g - a.len()]);
            }
        }
    }
}

proof fn lemma_nonempty_kept(gs: Seq<GroupView>)
    requires
        lines_kept_form(gs),
    ensures
        lines_kept_form(nonempty_groups(gs)),
        forall|g: int| 0 <= g < nonempty_groups(gs).len() ==> (#[trigger] nonempty_groups(gs)[g]).lines.len() > 0,
    decreases gs.len(),
{
    if gs.len() > 0 {
        let init = gs.drop_last();
        assert(lines_kept_form(init)) by {
            assert forall|g: int, j: int| 0 <= g < init.len() && 0 <= j < init[g].lines.len() implies kept_form(
                #[trigger] init[g].lines[j],
            ) by {
                assert(init[g] == gs[g]);
            }
        }
        lemma_nonempty_kept(init);
        let r = nonempty_groups(gs);
        let ri = nonempty_groups(init);
        if gs.last().lines.len() > 0 {
            assert forall|g: int, j: int| 0 <= g < r.len() && 0 <= j < r[g].lines.len() implies kept_form(
                #[trigger] r[g].lines[j],
            ) by {
                if g < ri.len() {
                    assert(r[g] == ri[g]);
                } else {
                    assert(r[g] == gs[gs.len() - 1]);
                }
            }
            assert forall|g: int| 0 <= g < r.len() implies (#[trigger] r[g]).lines.len() > 0 by {
                if g < ri.len() {
                    assert(r[g] == ri[g]);
                }
            }
        }
    }
}

/// Every group a parse keeps has lines, and every kept line begins with a
/// character that is neither white space, nor the opening bracket of a
/// rider, nor the brace of an annotation, and keeps no trailing inline
/// marker such as `(implicit)` or `(crafted)` nor property marker such as
/// `(unmet)` that marker stripping would remove: stripping it changes
/// nothing. The grouping is authoritative
/// exactly when some modifier section holds an annotation.
pub proof fn parsed_lines_are_modifier_text(payload: Seq<char>)
    ensures
        parse_spec(payload) matches Ok(item) ==> {
            &&& item.groups.len() > 0
            &&& lines_kept_form(item.groups)
            &&& forall|g: int| 0 <= g < item.groups.len() ==> (#[trigger] item.groups[g]).lines.len() > 0
            &&& item.grouping_is_authoritative == any_annotated(
                modifier_sections(split_sections(lines_of(normalize_newlines(payload)))),
            )
        },
{
    let lines = lines_of(normalize_newlines(payload));
    let cands = modifier_sections(split_sections(lines));
    lemma_all_groups_kept(cands, cands.len() as int, last_index(cands.len() as int), any_annotated(cands));
    lemma_nonempty_kept(all_groups(cands, cands.len() as int, last_index(cands.len() as int), any_annotated(cands)));
}

/// The corruption flag of a parse: set exactly when some content line, in
/// its compact form (white space removed, lower-cased), begins with
/// `corrupted`, with the traditional Chinese `已汙染`, with the simplified
/// `已污染`, or with `已腐化`.
pub proof fn corruption_read_from_any_content_line(payload: Seq<char>)
    ensures
        parse_spec(payload) matches Ok(item) ==> (item.corrupted <==> exists|i: int|
            0 <= i < lines_of(normalize_newlines(payload)).len() && is_content(
                #[trigger] lines_of(normalize_newlines(payload))[i],
            ) && ({
                let c = compact_form(trim(lines_of(normalize_newlines(payload))[i]));
                starts_with(c, "corrupted"@) || starts_with(c, "已汙染"@) || starts_with(c, "已污染"@)
                    || starts_with(c, "已腐化"@)
            })),
{
    let lines = lines_of(normalize_newlines(payload));
    let keys = corrupted_keys();
    assert(keys[0] == "corrupted"@ && keys[1] == "已汙染"@ && keys[2] == "已污染"@ && keys[3] == "已腐化"@);
    assert forall|i: int| 0 <= i < lines.len() implies (starts_with_any(compact_form(trim(#[trigger] lines[i])), keys) <==> ({
        let c = compact_form(trim(lines[i]));
        starts_with(c, "corrupted"@) || starts_with(c, "已汙染"@) || starts_with(c, "已污染"@)
            || starts_with(c, "已腐化"@)
    })) by {
        let c = compact_form(trim(lines[i]));
        if starts_with_any(c, keys) {
            let k = choose|k: int| 0 <= k < keys.len() && starts_with(c, #[trigger] keys[k]);
            assert(k == 0 || k == 1 || k == 2 || k == 3);
        }
        if starts_with(c, "corrupted"@) {
            assert(starts_with(c, keys[0]));
        }
        if starts_with(c, "已汙染"@) {
            assert(starts_with(c, keys[1]));
        }
        if starts_with(c, "已污染"@) {
            assert(starts_with(c, keys[2]));
        }
        if starts_with(c, "已腐化"@) {
            assert(starts_with(c, keys[3]));
        }
    }
}

proof fn lemma_reads_item_class_keys(s: Seq<char>)
    ensures
        starts_with_any(s, item_class_keys()) <==> (starts_with(s, "itemclass:"@) || starts_with(s, "物品種類:"@) || starts_with(s, "物品种类:"@) || starts_with(s, "物品類別:"@) || starts_with(s, "物品类别:"@)),
{
    let keys = item_class_keys();
    assert(keys.len() == 5);
    assert(keys[0] == "itemclass:"@);
    assert(keys[1] == "物品種類:"@);
    assert(keys[2] == "物品种类:"@);
    assert(keys[3] == "物品類別:"@);
    assert(keys[4] == "物品类别:"@);
    if starts_with_any(s, keys) {
        let i = choose|i: int| 0 <= i < keys.len() && starts_with(s, #[trigger] keys[i]);
        assert(i == 0 || i == 1 || i == 2 || i == 3 || i == 4);
    }
    if starts_with(s, "itemclass:"@) {
        assert(starts_with(s, keys[0]));
    }
    if starts_with(s, "物品種類:"@) {
        assert(starts_with(s, keys[1]));
    }
    if starts_with(s, "物品种类:"@) {
        assert(starts_with(s, keys[2]));
    }
    if starts_with(s, "物品類別:"@) {
        assert(starts_with(s, keys[3]));
    }
    if starts_with(s, "物品类别:"@) {
        assert(starts_with(s, keys[4]));
    }
}

proof fn lemma_reads_rarity_keys(s: Seq<char>)
    ensures
        starts_with_any(s, rarity_keys()) <==> (starts_with(s, "rarity:"@) || starts_with(s, "稀有度:"@)),
{
    let keys = rarity_keys();
    assert(keys.len() == 2);
    assert(keys[0] == "rarity:"@);
    assert(keys[1] == "稀有度:"@);
    if starts_with_any(s, keys) {
        let i = choose|i: int| 0 <= i < keys.len() && starts_with(s, #[trigger] keys[i]);
        assert(i == 0 || i == 1);
    }
    if starts_with(s, "rarity:"@) {
        assert(starts_with(s, keys[0]));
    }
    if starts_with(s, "稀有度:"@) {
        assert(starts_with(s, keys[1]));
    }
}

proof fn lemma_reads_item_level_keys(s: Seq<char>)
    ensures
        starts_with_any(s, item_level_keys()) <==> (starts_with(s, "itemlevel:"@) || starts_with(s, "物品等級:"@) || starts_with(s, "物品等级:"@)),
{
    let keys = item_level_keys();
    assert(keys.len() == 3);
    assert(keys[0] == "itemlevel:"@);
    assert(keys[1] == "物品等級:"@);
    assert(keys[2] == "物品等级:"@);
    if starts_with_any(s, keys) {
        let i = choose|i: int| 0 <= i < keys.len() && starts_with(s, #[trigger] keys[i]);
        assert(i == 0 || i == 1 || i == 2);
    }
    if starts_with(s, "itemlevel:"@) {
        assert(starts_with(s, keys[0]));
    }
    if starts_with(s, "物品等級:"@) {
        assert(starts_with(s, keys[1]));
    }
    if starts_with(s, "物品等级:"@) {
        assert(starts_with(s, keys[2]));
    }
}

proof fn lemma_reads_trailer_keys(s: Seq<char>)
    ensures
        starts_with_any(s, trailer_keys()) <==> (starts_with(s, "note:"@) || starts_with(s, "備註:"@) || starts_with(s, "备注:"@) || starts_with(s, "出售"@) || starts_with(s, "sellprice"@)),
{
    let keys = trailer_keys();
    assert(keys.len() == 5);
    assert(keys[0] == "note:"@);
    assert(keys[1] == "備註:"@);
    assert(keys[2] == "备注:"@);
    assert(keys[3] == "出售"@);
    assert(keys[4] == "sellprice"@);
    if starts_with_any(s, keys) {
        let i = choose|i: int| 0 <= i < keys.len() && starts_with(s, #[trigger] keys[i]);
        assert(i == 0 || i == 1 || i == 2 || i == 3 || i == 4);
    }
    if starts_with(s, "note:"@) {
        assert(starts_with(s, keys[0]));
    }
    if starts_with(s, "備註:"@) {
        assert(starts_with(s, keys[1]));
    }
    if starts_with(s, "备注:"@) {
        assert(starts_with(s, keys[2]));
    }
    if starts_with(s, "出售"@) {
        assert(starts_with(s, keys[3]));
    }
    if starts_with(s, "sellprice"@) {
        assert(starts_with(s, keys[4]));
    }
}

proof fn lemma_reads_flag_lines(s: Seq<char>)
    ensures
        is_member(s, flag_lines()) <==> (s == "corrupted"@ || s == "unidentified"@ || s == "mirrored"@ || s == "split"@ || s == "synthesiseditem"@ || s == "fractureditem"@ || s == "desecrated"@ || s == "shaperitem"@ || s == "elderitem"@ || s == "crusaderitem"@ || s == "redeemeritem"@ || s == "hunteritem"@ || s == "warloriditem"@ || s == "searingexarchitem"@ || s == "eaterofworldsitem"@ || s == "影響物品"@ || s == "開創者物品"@ || s == "尊爺物品"@ || s == "已汙染"@ || s == "已污染"@ || s == "已腐化"@ || s == "未鑑定"@ || s == "未鉴定"@ || s == "已複製"@ || s == "已复制"@ || s == "分裂的物品"@ || s == "破裂之物"@),
{
    let list = flag_lines();
    assert(list.len() == 27);
    assert(list[0] == "corrupted"@);
    assert(list[1] == "unidentified"@);
    assert(list[2] == "mirrored"@);
    assert(list[3] == "split"@);
    assert(list[4] == "synthesiseditem"@);
    assert(list[5] == "fractureditem"@);
    assert(list[6] == "desecrated"@);
    assert(list[7] == "shaperitem"@);
    assert(list[8] == "elderitem"@);
    assert(list[9] == "crusaderitem"@);
    assert(list[10] == "redeemeritem"@);
    assert(list[11] == "hunteritem"@);
    assert(list[12] == "warloriditem"@);
    assert(list[13] == "searingexarchitem"@);
    assert(list[14] == "eaterofworldsitem"@);
    assert(list[15] == "影響物品"@);
    assert(list[16] == "開創者物品"@);
    assert(list[17] == "尊爺物品"@);
    assert(list[18] == "已汙染"@);
    assert(list[19] == "已污染"@);
    assert(list[20] == "已腐化"@);
    assert(list[21] == "未鑑定"@);
    assert(list[22] == "未鉴定"@);
    assert(list[23] == "已複製"@);
    assert(list[24] == "已复制"@);
    assert(list[25] == "分裂的物品"@);
    assert(list[26] == "破裂之物"@);
    if is_member(s, list) {
        let i = choose|i: int| 0 <= i < list.len() && #[trigger] list[i] == s;
        assert(i == 0 || i == 1 || i == 2 || i == 3 || i == 4 || i == 5 || i == 6 || i == 7 || i == 8 || i == 9 || i == 10 || i == 11 || i == 12 || i == 13 || i == 14 || i == 15 || i == 16 || i == 17 || i == 18 || i == 19 || i == 20 || i == 21 || i == 22 || i == 23 || i == 24 || i == 25 || i == 26);
    }
    if s == "corrupted"@ {
        assert(list[0] == s);
    }
    if s == "unidentified"@ {
        assert(list[1] == s);
    }
    if s == "mirrored"@ {
        assert(list[2] == s);
    }
    if s == "split"@ {
        assert(list[3] == s);
    }
    if s == "synthesiseditem"@ {
        assert(list[4] == s);
    }
    if s == "fractureditem"@ {
        assert(list[5] == s);
    }
    if s == "desecrated"@ {
        assert(list[6] == s);
    }
    if s == "shaperitem"@ {
        assert(list[7] == s);
    }
    if s == "elderitem"@ {
        assert(list[8] == s);
    }
    if s == "crusaderitem"@ {
        assert(list[9] == s);
    }
    if s == "redeemeritem"@ {
        assert(list[10] == s);
    }
    if s == "hunteritem"@ {
        assert(list[11] == s);
    }
    if s == "warloriditem"@ {
        assert(list[12] == s);
    }
    if s == "searingexarchitem"@ {
        assert(list[13] == s);
    }
    if s == "eaterofworldsitem"@ {
        assert(list[14] == s);
    }
    if s == "影響物品"@ {
        assert(list[15] == s);
    }
    if s == "開創者物品"@ {
        assert(list[16] == s);
    }
    if s == "尊爺物品"@ {
        assert(list[17] == s);
    }
    if s == "已汙染"@ {
        assert(list[18] == s);
    }
    if s == "已污染"@ {
        assert(list[19] == s);
    }
    if s == "已腐化"@ {
        assert(list[20] == s);
    }
    if s == "未鑑定"@ {
        assert(list[21] == s);
    }
    if s == "未鉴定"@ {
        assert(list[22] == s);
    }
    if s == "已複製"@ {
        assert(list[23] == s);
    }
    if s == "已复制"@ {
        assert(list[24] == s);
    }
    if s == "分裂的物品"@ {
        assert(list[25] == s);
    }
    if s == "破裂之物"@ {
        assert(list[26] == s);
    }
}

/// A section opened by a trailer key, the vendor's note or sale price in any
/// client's spelling (compared on the compact form of its first line),
/// holds no modifiers wherever it stands among the sections.
pub proof fn trailer_sections_hold_no_modifiers(
    before: Seq<Seq<Seq<char>>>,
    sec: Seq<Seq<char>>,
    after: Seq<Seq<Seq<char>>>,
)
    requires
        sec.len() > 0,
        starts_with(compact_form(sec[0]), "note:"@) || starts_with(compact_form(sec[0]), "備註:"@) || starts_with(compact_form(sec[0]), "备注:"@) || starts_with(compact_form(sec[0]), "出售"@) || starts_with(compact_form(sec[0]), "sellprice"@),
    ensures
        kept_sections(before + seq![sec] + after) == kept_sections(before + after),
    decreases after.len(),
{
    lemma_reads_trailer_keys(compact_form(sec[0]));
    assert(!keeps_section(sec));
    if after.len() == 0 {
        assert(before + seq![sec] + after =~= before.push(sec));
        assert(before + after =~= before);
        assert(before.push(sec).drop_last() =~= before);
    } else {
        trailer_sections_hold_no_modifiers(before, sec, after.drop_last());
        assert((before + seq![sec] + after).drop_last() =~= before + seq![sec] + after.drop_last());
        assert((before + after).drop_last() =~= before + after.drop_last());
        assert((before + seq![sec] + after).last() == after.last());
        assert((before + after).last() == after.last());
    }
}

/// A status line, one whose compact form is a flag such as `corrupted`,
/// `unidentified`, an influence, or their Chinese spellings, never becomes a
/// modifier of an unannotated section.
pub proof fn flag_lines_never_become_modifiers(lines: Seq<Seq<char>>, l: Seq<char>, positional: ModKind)
    requires
        compact_form(l) == "corrupted"@ || compact_form(l) == "unidentified"@ || compact_form(l) == "mirrored"@ || compact_form(l) == "split"@ || compact_form(l) == "synthesiseditem"@ || compact_form(l) == "fractureditem"@ || compact_form(l) == "desecrated"@ || compact_form(l) == "shaperitem"@ || compact_form(l) == "elderitem"@ || compact_form(l) == "crusaderitem"@ || compact_form(l) == "redeemeritem"@ || compact_form(l) == "hunteritem"@ || compact_form(l) == "warloriditem"@ || compact_form(l) == "searingexarchitem"@ || compact_form(l) == "eaterofworldsitem"@ || compact_form(l) == "影響物品"@ || compact_form(l) == "開創者物品"@ || compact_form(l) == "尊爺物品"@ || compact_form(l) == "已汙染"@ || compact_form(l) == "已污染"@ || compact_form(l) == "已腐化"@ || compact_form(l) == "未鑑定"@ || compact_form(l) == "未鉴定"@ || compact_form(l) == "已複製"@ || compact_form(l) == "已复制"@ || compact_form(l) == "分裂的物品"@ || compact_form(l) == "破裂之物"@,
    ensures
        groups_from_layout(lines.push(l), positional) == groups_from_layout(lines, positional),
{
    lemma_reads_flag_lines(compact_form(l));
    assert(lines.push(l).drop_last() =~= lines);
    assert(lines.push(l).last() == l);
}

/// A line of usage text, one that mentions right-clicking or placing the
/// item somewhere (`right click`, `place into`, `右鍵點擊`, `右键点击`,
/// compared lower-cased), never becomes a modifier of an unannotated
/// section.
pub proof fn usage_lines_never_become_modifiers(lines: Seq<Seq<char>>, l: Seq<char>, positional: ModKind)
    requires
        ({
            let t = lower(trim(l));
            contains(t, "右鍵點擊"@) || contains(t, "右键点击"@) || contains(t, "right click"@) || contains(t, "place into"@)
        }),
    ensures
        groups_from_layout(lines.push(l), positional) == groups_from_layout(lines, positional),
{
    let t = lower(trim(l));
    let m = prose_markers();
    assert(m[0] == "右鍵點擊"@ && m[1] == "右键点击"@ && m[2] == "right click"@ && m[3] == "place into"@);
    if contains(t, "右鍵點擊"@) {
        assert(contains(t, m[0]));
    } else if contains(t, "右键点击"@) {
        assert(contains(t, m[1]));
    } else if contains(t, "right click"@) {
        assert(contains(t, m[2]));
    } else {
        assert(contains(t, m[3]));
    }
    assert(names_a_usage(l));
    assert(lines.push(l).drop_last() =~= lines);
    assert(lines.push(l).last() == l);
}

/// The item class, rarity and item level a parse reports come from the last
/// content line naming them: a content line whose compact form begins with
/// the field's key (in the English or either Chinese spelling) and which
/// holds a colon sets the field to the trimmed text after its first colon,
/// and a line that names none of the field's keys leaves it as it was.
pub proof fn header_fields_come_from_the_last_line_naming_them(lines: Seq<Seq<char>>, l: Seq<char>)
    ensures
        ({
            let c = compact_form(trim(l));
            let value = Some(trim(trim(l).skip(first_colon(trim(l)).unwrap() + 1)));
            &&& is_content(l) && (starts_with(c, "rarity:"@) || starts_with(c, "稀有度:"@)) && first_colon(trim(l)) is Some ==> last_value(lines.push(l), rarity_keys()) == value
            &&& !(starts_with(c, "rarity:"@) || starts_with(c, "稀有度:"@)) ==> last_value(lines.push(l), rarity_keys()) == last_value(lines, rarity_keys())
            &&& is_content(l) && (starts_with(c, "itemlevel:"@) || starts_with(c, "物品等級:"@) || starts_with(c, "物品等级:"@)) && first_colon(trim(l)) is Some ==> last_value(lines.push(l), item_level_keys()) == value
            &&& !(starts_with(c, "itemlevel:"@) || starts_with(c, "物品等級:"@) || starts_with(c, "物品等级:"@)) ==> last_value(lines.push(l), item_level_keys()) == last_value(lines, item_level_keys())
            &&& is_content(l) && (starts_with(c, "itemclass:"@) || starts_with(c, "物品種類:"@) || starts_with(c, "物品种类:"@) || starts_with(c, "物品類別:"@) || starts_with(c, "物品类别:"@)) && first_colon(trim(l)) is Some ==> last_value(lines.push(l), item_class_keys()) == value
            &&& !(starts_with(c, "itemclass:"@) || starts_with(c, "物品種類:"@) || starts_with(c, "物品种类:"@) || starts_with(c, "物品類別:"@) || starts_with(c, "物品类别:"@)) ==> last_value(lines.push(l), item_class_keys()) == last_value(lines, item_class_keys())
        }),
{
    let c = compact_form(trim(l));
    lemma_reads_rarity_keys(c);
    lemma_reads_item_level_keys(c);
    lemma_reads_item_class_keys(c);
    assert(lines.push(l).drop_last() =~= lines);
    assert(lines.push(l).last() == l);
}

/// Every group holds exactly one line.
pub open spec fn one_line_each(gs: Seq<GroupView>) -> bool {
    forall|g: int| 0 <= g < gs.len() ==> (#[trigger] gs[g]).lines.len() == 1
}

proof fn lemma_layout_one_line(lines: Seq<Seq<char>>, positional: ModKind)
    ensures
        one_line_each(groups_from_layout(lines, positional)),
    decreases lines.len(),
{
    if lines.len() > 0 {
        lemma_layout_one_line(lines.drop_last(), positional);
        let init = groups_from_layout(lines.drop_last(), positional);
        let r = groups_from_layout(lines, positional);
        assert forall|g: int| 0 <= g < r.len() implies (#[trigger] r[g]).lines.len() == 1 by {
            if g < init.len() {
                assert(r[g] == init[g]);
            }
        }
    }
}

proof fn lemma_unannotated_one_line(cands: Seq<Seq<Seq<char>>>, n: int, last: int, annotated: bool)
    requires
        n <= cands.len(),
        forall|i: int| 0 <= i < n ==> !has_annotation(#[trigger] cands[i]),
    ensures
        one_line_each(all_groups(cands, n, last, annotated)),
    decreases n,
{
    if n > 0 {
        lemma_unannotated_one_line(cands, n - 1, last, annotated);
        assert(!has_annotation(cands[n - 1]));
        lemma_layout_one_line(cands[n - 1], positional_kind(n - 1, last, annotated));
        let a = all_groups(cands, n - 1, last, annotated);
        let b = section_groups(cands[n - 1], n - 1, last, annotated);
        let all = all_groups(cands, n, last, annotated);
        assert(all == a + b);
        assert forall|g: int| 0 <= g < all.len() implies (#[trigger] all[g]).lines.len() == 1 by {
            if g < a.len() {
                assert(all[g] == a[g]);
            } else {
                assert(all[g] == b[g - a.len()]);
            }
        }
    }
}

proof fn lemma_nonempty_one_line(gs: Seq<GroupView>)
    requires
        one_line_each(gs),
    ensures
        one_line_each(nonempty_groups(gs)),
    decreases gs.len(),
{
    if gs.len() > 0 {
        let init = gs.drop_last();
        assert forall|g: int| 0 <= g < init.len() implies (#[trigger] init[g]).lines.len() == 1 by {
            assert(init[g] == gs[g]);
        }
        lemma_nonempty_one_line(init);
        let r = nonempty_groups(gs);
        let ri = nonempty_groups(init);
        if gs.last().lines.len() > 0 {
            assert forall|g: int| 0 <= g < r.len() implies (#[trigger] r[g]).lines.len() == 1 by {
                if g < ri.len() {
                    assert(r[g] == ri[g]);
                }
            }
        }
    }
}

/// Without annotations there is no grouping to trust: when no modifier
/// section carries an annotation, the parse is not authoritative and every
/// group it keeps holds exactly one line.
pub proof fn unannotated_parse_keeps_one_line_per_group(payload: Seq<char>)
    ensures
        parse_spec(payload) matches Ok(item) ==> (item.grouping_is_authoritative == any_annotated(
            modifier_sections(split_sections(lines_of(normalize_newlines(payload)))),
        ) && (!item.grouping_is_authoritative ==> one_line_each(item.groups))),
{
    let lines = lines_of(normalize_newlines(payload));
    let cands = modifier_sections(split_sections(lines));
    if !any_annotated(cands) {
        lemma_unannotated_one_line(cands, cands.len() as int, last_index(cands.len() as int), false);
        lemma_nonempty_one_line(all_groups(cands, cands.len() as int, last_index(cands.len() as int), false));
    }
}

/// The newline reading of one character on its own.
pub open spec fn normalize_char(x: char) -> Seq<char> {
    if x == '\r' {
        seq!['\n']
    } else {
        seq![x]
    }
}

/// The newline reading, taken from the end: a `\n` after a `\r` merges with
/// it; any other character reads on its own.
proof fn lemma_normalize_push(s: Seq<char>, x: char)
    ensures
        normalize_newlines(s.push(x)) == if x == '\n' && s.len() > 0 && s.last() == '\r' {
            normalize_newlines(s.drop_last()).push('\n')
        } else {
            normalize_newlines(s) + normalize_char(x)
        },
    decreases s.len(),
{
    let t = s.push(x);
    assert(normalize_newlines(Seq::<char>::empty()) == Seq::<char>::empty());
    if s.len() == 0 {
        assert(t.drop_first() =~= Seq::<char>::empty());
        assert(normalize_newlines(t) =~= normalize_char(x));
    } else if s.len() == 1 {
        if x == '\n' && s[0] == '\r' {
            assert(t.skip(2) =~= Seq::<char>::empty());
            assert(s.drop_last() =~= Seq::<char>::empty());
            assert(normalize_newlines(t) =~= seq!['\n']);
        } else {
            assert(t.drop_first() =~= seq![x]);
            assert(s.drop_first() =~= Seq::<char>::empty());
            assert(seq![x].drop_first() =~= Seq::<char>::empty());
            assert(normalize_newlines(seq![x]) =~= normalize_char(x));
            assert(normalize_newlines(t) =~= normalize_newlines(s) + normalize_char(x));
        }
    } else if s[0] == '\r' && s[1] == '\n' {
        let r = s.skip(2);
        assert(t.skip(2) =~= r.push(x));
        lemma_normalize_push(r, x);
        if x == '\n' && s.last() == '\r' {
            assert(r.len() > 0 && r.last() == '\r');
            assert(s.drop_last().skip(2) =~= r.drop_last());
            assert(s.drop_last()[0] == '\r' && s.drop_last()[1] == '\n');
            assert(normalize_newlines(t) =~= normalize_newlines(s.drop_last()).push('\n'));
        } else {
            assert(normalize_newlines(t) =~= normalize_newlines(s) + normalize_char(x));
        }
    } else {
        let r = s.drop_first();
        assert(t.drop_first() =~= r.push(x));
        lemma_normalize_push(r, x);
        assert(t[0] == s[0] && t[1] == s[1]);
        if x == '\n' && s.last() == '\r' {
            assert(r.len() > 0 && r.last() == '\r');
            let sd = s.drop_last();
            assert(sd.drop_first() =~= r.drop_last());
            assert(sd[0] == s[0]);
            if sd.len() >= 2 {
                assert(sd[1] == s[1]);
            }
            assert(normalize_newlines(t) =~= normalize_newlines(s.drop_last()).push('\n'));
        } else {
            assert(normalize_newlines(t) =~= normalize_newlines(s) + normalize_char(x));
        }
    }
}

/// Every carriage return is the first half of a `\r\n` pair, as in the
/// client's own dumps.
pub open spec fn cr_only_before_lf(s: Seq<char>) -> bool {
    forall|k: int| 0 <= k < s.len() && #[trigger] s[k] == '\r' ==> k + 1 < s.len() && s[k + 1] == '\n'
}

pub open spec fn cr_free(l: Seq<char>) -> bool {
    forall|k: int| 0 <= k < l.len() ==> #[trigger] l[k] != '\r'
}

proof fn lemma_crlf_segments(p: Seq<char>)
    requires
        cr_only_before_lf(p),
    ensures
        segments(normalize_newlines(p)) == segments(p).map_values(|l: Seq<char>| strip_cr(l)),
        forall|i: int| 0 <= i < segments(p).len() ==> cr_free(strip_cr(#[trigger] segments(p)[i])),
        strip_cr(segments(p).last()) == segments(p).last(),
    decreases p.len(),
{
    crate::text::lemma_segments_nonempty(p);
    if p.len() == 0 {
        assert(normalize_newlines(p) == Seq::<char>::empty());
        assert(segments(p).map_values(|l: Seq<char>| strip_cr(l)) =~= seq![Seq::<char>::empty()]);
    } else {
        let s = p.drop_last();
        let x = p.last();
        assert(p == s.push(x));
        assert(x != '\r') by {
            if x == '\r' {
                assert(p[p.len() - 1] == '\r');
            }
        }
        lemma_normalize_push(s, x);
        let segs = segments(p);
        if x == '\n' && s.len() > 0 && s.last() == '\r' {
            let s2 = s.drop_last();
            assert forall|k: int| 0 <= k < s2.len() && #[trigger] s2[k] == '\r' implies k + 1 < s2.len() && s2[k + 1] == '\n' by {
                assert(p[k] == '\r');
                if k + 1 == s2.len() {
                    assert(p[k + 1] == '\r');
                }
                assert(p[k + 1] == s2[k + 1]);
            }
            lemma_crlf_segments(s2);
            crate::text::lemma_segments_nonempty(s2);
            crate::text::lemma_segments_nonempty(s);
            assert(s == s2.push('\r'));
            let g2 = segments(s2);
            let gs = segments(s);
            assert(gs == g2.update(g2.len() - 1, g2.last().push('\r')));
            assert(segs == gs.push(Seq::<char>::empty()));
            assert(strip_cr(g2.last().push('\r')) =~= g2.last());
            let m2 = g2.map_values(|l: Seq<char>| strip_cr(l));
            let m = segs.map_values(|l: Seq<char>| strip_cr(l));
            assert(normalize_newlines(p) == normalize_newlines(s2).push('\n'));
            let np = normalize_newlines(p);
            assert(np.drop_last() =~= normalize_newlines(s2));
            assert(np.last() == '\n');
            assert(segments(np) == segments(normalize_newlines(s2)).push(Seq::<char>::empty()));
            assert(m =~= m2.push(Seq::<char>::empty()));
            assert forall|i: int| 0 <= i < segs.len() implies cr_free(strip_cr(#[trigger] segs[i])) by {
                if i < g2.len() - 1 {
                    assert(segs[i] == g2[i]);
                } else if i == g2.len() - 1 {
                    assert(segs[i] == g2.last().push('\r'));
                    assert(cr_free(strip_cr(g2[i])));
                }
            }
        } else {
            assert forall|k: int| 0 <= k < s.len() && #[trigger] s[k] == '\r' implies k + 1 < s.len() && s[k + 1] == '\n' by {
                assert(p[k] == '\r');
                if k + 1 == s.len() {
                    assert(p[k + 1] == x);
                    assert(s.last() == '\r');
                }
                assert(p[k + 1] == s[k + 1]);
            }
            lemma_crlf_segments(s);
            crate::text::lemma_segments_nonempty(s);
            let gs = segments(s);
            let ms = gs.map_values(|l: Seq<char>| strip_cr(l));
            let m = segs.map_values(|l: Seq<char>| strip_cr(l));
            assert(normalize_newlines(p) == normalize_newlines(s).push(x)) by {
                assert(normalize_char(x) =~= seq![x]);
            }
            let np = normalize_newlines(p);
            assert(np.drop_last() =~= normalize_newlines(s));
            assert(np.last() == x);
            if x == '\n' {
                assert(segs == gs.push(Seq::<char>::empty()));
                assert(m =~= ms.push(Seq::<char>::empty()));
                assert forall|i: int| 0 <= i < segs.len() implies cr_free(strip_cr(#[trigger] segs[i])) by {
                    if i < gs.len() {
                        assert(segs[i] == gs[i]);
                    }
                }
            } else {
                if s.len() > 0 {
                    assert(s.last() != '\r') by {
                        if s.last() == '\r' {
                            assert(p[s.len() - 1] == '\r');
                        }
                    }
                }
                assert(segs == gs.update(gs.len() - 1, gs.last().push(x)));
                assert(gs.last().len() == 0 || gs.last().last() != '\r');
                assert(strip_cr(gs.last().push(x)) =~= gs.last().push(x));
                assert(m =~= ms.update(ms.len() - 1, ms.last().push(x)));
                assert(cr_free(gs.last().push(x))) by {
                    assert(cr_free(strip_cr(gs[gs.len() - 1])));
                }
                assert forall|i: int| 0 <= i < segs.len() implies cr_free(strip_cr(#[trigger] segs[i])) by {
                    if i < gs.len() - 1 {
                        assert(segs[i] == gs[i]);
                    }
                }
            }
        }
    }
}

/// When every carriage return comes before a newline, the lines `str::lines`
/// yields are the lines the parse reads.
pub proof fn crlf_lines_read_alike(p: Seq<char>)
    requires
        cr_only_before_lf(p),
    ensures
        lines_of(normalize_newlines(p)) == lines_of(p),
{
    lemma_crlf_segments(p);
    crate::text::lemma_segments_nonempty(p);
    let segs = segments(p);
    let m = segs.map_values(|l: Seq<char>| strip_cr(l));
    let kp = if segs.last().len() == 0 { segs.drop_last() } else { segs };
    let km = if m.last().len() == 0 { m.drop_last() } else { m };
    assert(m.last() == segs.last());
    assert(km.len() == kp.len());
    assert forall|i: int| 0 <= i < km.len() implies strip_cr(#[trigger] km[i]) == strip_cr(kp[i]) by {
        assert(km[i] == strip_cr(segs[i]));
        assert(cr_free(strip_cr(segs[i])));
        let l = strip_cr(segs[i]);
        if l.len() > 0 {
            assert(l[l.len() - 1] != '\r');
        }
    }
    assert(lines_of(normalize_newlines(p)) =~= lines_of(p));
}

pub open spec fn parse_result_view(r: Result<ParsedItem, ItemTextError>) -> Result<ItemView, ItemTextError> {
    match r {
        Ok(item) => Ok(item@),
        Err(e) => Err(e),
    }
}

/// A modifier group under construction, held as characters.
pub struct Group {
    pub kind: ModKind,
    pub lines: Vec<Vec<char>>,
    pub name: Option<Vec<char>>,
    pub tier: Option<u32>,
}

impl View for Group {
    type V = GroupView;

    open spec fn view(&self) -> GroupView {
        GroupView {
            kind: self.kind,
            lines: views(self.lines@),
            name: opt_chars_view(self.name),
            tier: self.tier,
        }
    }
}

pub open spec fn gviews(v: Seq<Group>) -> Seq<GroupView> {
    v.map_values(|g: Group| g@)
}

pub open spec fn sec_views(v: Seq<Vec<Vec<char>>>) -> Seq<Seq<Seq<char>>> {
    v.map_values(|s: Vec<Vec<char>>| views(s@))
}

/// Splits lines into sections.
pub fn split_sections_exec(lines: &Vec<Vec<char>>) -> (secs: Vec<Vec<Vec<char>>>)
    ensures
        sec_views(secs@) == split_sections(views(lines@)),
{
    let mut done: Vec<Vec<Vec<char>>> = Vec::new();
    let mut cur: Vec<Vec<char>> = Vec::new();
    let mut i: usize = 0;
    assert(views(lines@).take(0) =~= Seq::<Seq<char>>::empty());
    assert(views(cur@) =~= Seq::<Seq<char>>::empty());
    assert(sec_views(done@) =~= Seq::<Seq<Seq<char>>>::empty());
    assert(sec_views(done@).push(views(cur@)) =~= split_sections(views(lines@).take(0)));
    while i < lines.len()
        invariant
            i <= lines@.len(),
            sec_views(done@).push(views(cur@)) == split_sections(views(lines@).take(i as int)),
        decreases lines@.len() - i,
    {
        let ghost prev = views(lines@).take(i as int);
        assert(views(lines@).take(i + 1).drop_last() =~= prev);
        assert(views(lines@).take(i + 1).last() == lines@[i as int]@);
        let line = &lines[i];
        if is_separator_chars(line.as_slice()) {
            let finished = cur;
            let ghost d0 = done@;
            done.push(finished);
            assert(done@ =~= d0.push(finished));
            assert(sec_views(done@) =~= sec_views(d0).push(views(finished@)));
            cur = Vec::new();
            assert(views(cur@) =~= Seq::<Seq<char>>::empty());
            assert(sec_views(done@).push(views(cur@)) =~= split_sections(views(lines@).take(i + 1)));
        } else {
            let t = trim_chars(line.as_slice());
            if t.len() > 0 {
                let ghost c0 = cur@;
                cur.push(t);
                assert(cur@ =~= c0.push(t));
                assert(views(cur@) =~= views(c0).push(t@));
                assert(sec_views(done@).push(views(cur@)) =~= split_sections(
                    views(lines@).take(i + 1),
                ));
            } else {
                assert(sec_views(done@).push(views(cur@)) =~= split_sections(
                    views(lines@).take(i + 1),
                ));
            }
        }
        i = i + 1;
    }
    assert(views(lines@).take(lines@.len() as int) =~= views(lines@));
    let ghost d0 = done@;
    done.push(cur);
    assert(done@ =~= d0.push(cur));
    assert(sec_views(done@) =~= sec_views(d0).push(views(cur@)));
    done
}

/// The value of the last content line carrying one of `keys`.
pub fn last_value_exec(lines: &Vec<Vec<char>>, keys: &Vec<Vec<char>>) -> (r: Option<Vec<char>>)
    ensures
        opt_chars_view(r) == last_value(views(lines@), views(keys@)),
{
    let mut found: Option<Vec<char>> = None;
    let mut i: usize = 0;
    assert(views(lines@).take(0) =~= Seq::<Seq<char>>::empty());
    while i < lines.len()
        invariant
            i <= lines@.len(),
            opt_chars_view(found) == last_value(views(lines@).take(i as int), views(keys@)),
        decreases lines@.len() - i,
    {
        assert(views(lines@).take(i + 1).drop_last() =~= views(lines@).take(i as int));
        assert(views(lines@).take(i + 1).last() == lines@[i as int]@);
        let line = &lines[i];
        if !is_separator_chars(line.as_slice()) {
            let t = trim_chars(line.as_slice());
            if t.len() > 0 {
                match value_after_key_exec(t.as_slice(), keys) {
                    Some(v) => {
                        found = Some(v);
                    },
                    None => {},
                }
            }
        }
        i = i + 1;
    }
    assert(views(lines@).take(lines@.len() as int) =~= views(lines@));
    found
}

fn any_corrupted_exec(lines: &Vec<Vec<char>>) -> (b: bool)
    ensures
        b == any_corrupted(views(lines@)),
{
    let keys = corrupted_keys_exec();
    let mut i: usize = 0;
    while i < lines.len()
        invariant
            i <= lines@.len(),
            views(keys@) == corrupted_keys(),
            forall|k: int|
                0 <= k < i ==> !(is_content(#[trigger] views(lines@)[k]) && starts_with_any(
                    compact_form(trim(views(lines@)[k])),
                    corrupted_keys(),
                )),
        decreases lines@.len() - i,
    {
        let line = &lines[i];
        assert(views(lines@)[i as int] == line@);
        if !is_separator_chars(line.as_slice()) {
            let t = trim_chars(line.as_slice());
            if t.len() > 0 {
                let c = compact_chars(t.as_slice());
                if starts_with_any_exec(c.as_slice(), &keys) {
                    return true;
                }
            }
        }
        i = i + 1;
    }
    false
}

fn section_has_item_level_exec(sec: &Vec<Vec<char>>, keys: &Vec<Vec<char>>) -> (b: bool)
    requires
        views(keys@) == item_level_keys(),
    ensures
        b == section_has_item_level(views(sec@)),
{
    let mut j: usize = 0;
    while j < sec.len()
        invariant
            j <= sec@.len(),
            views(keys@) == item_level_keys(),
            forall|k: int|
                0 <= k < j ==> !starts_with_any(compact_form(#[trigger] views(sec@)[k]), item_level_keys()),
        decreases sec@.len() - j,
    {
        assert(views(sec@)[j as int] == sec@[j as int]@);
        let c = compact_chars(sec[j].as_slice());
        if starts_with_any_exec(c.as_slice(), keys) {
            return true;
        }
        j = j + 1;
    }
    false
}

fn modifier_start_exec(secs: &Vec<Vec<Vec<char>>>) -> (start: usize)
    ensures
        start == modifier_start(sec_views(secs@)),
        start <= secs@.len(),
{
    let keys = item_level_keys_exec();
    let mut k: usize = 0;
    assert(sec_views(secs@).skip(0) =~= sec_views(secs@));
    while k < secs.len()
        invariant
            k <= secs@.len(),
            views(keys@) == item_level_keys(),
            first_item_level_section(sec_views(secs@)) == match first_item_level_section(
                sec_views(secs@).skip(k as int),
            ) {
                Some(j) => Some(j + k),
                None => None,
            },
        decreases secs@.len() - k,
    {
        assert(sec_views(secs@).skip(k as int).drop_first() =~= sec_views(secs@).skip(k + 1));
        assert(sec_views(secs@).skip(k as int)[0] == views(secs@[k as int]@));
        if section_has_item_level_exec(&secs[k], &keys) {
            return k + 1;
        }
        k = k + 1;
    }
    0
}

fn keeps_section_exec(
    sec: &Vec<Vec<char>>,
    trailers: &Vec<Vec<char>>,
    flags: &Vec<Vec<char>>,
    prose: &Vec<Vec<char>>,
) -> (b: bool)
    requires
        views(trailers@) == trailer_keys(),
        views(flags@) == flag_lines(),
        views(prose@) == prose_markers(),
    ensures
        b == keeps_section(views(sec@)),
{
    if sec.len() == 0 {
        return false;
    }
    let first = compact_chars(sec[0].as_slice());
    if starts_with_any_exec(first.as_slice(), trailers) {
        return false;
    }
    let mut all_flag = true;
    let mut all_pr = true;
    let mut all_prop = true;
    let mut j: usize = 0;
    while j < sec.len()
        invariant
            j <= sec@.len(),
            views(flags@) == flag_lines(),
            views(prose@) == prose_markers(),
            all_flag == forall|k: int| 0 <= k < j ==> is_flag(#[trigger] views(sec@)[k]),
            all_pr == forall|k: int| 0 <= k < j ==> is_prose(#[trigger] views(sec@)[k]),
            all_prop == forall|k: int| 0 <= k < j ==> is_property(#[trigger] views(sec@)[k]),
        decreases sec@.len() - j,
    {
        assert(views(sec@)[j as int] == sec@[j as int]@);
        let f = is_flag_exec(sec[j].as_slice(), flags);
        let p = is_prose_exec(sec[j].as_slice(), prose);
        let q = is_property_exec(sec[j].as_slice());
        all_flag = all_flag && f;
        all_pr = all_pr && p;
        all_prop = all_prop && q;
        j = j + 1;
    }
    !all_flag && !all_pr && !all_prop
}

/// The sections that can hold modifiers.
fn modifier_sections_exec(secs: &Vec<Vec<Vec<char>>>) -> (cands: Vec<Vec<Vec<char>>>)
    ensures
        sec_views(cands@) == modifier_sections(sec_views(secs@)),
{
    let start = modifier_start_exec(secs);
    let trailers = trailer_keys_exec();
    let flags = flag_lines_exec();
    let prose = prose_markers_exec();
    let ghost rest = sec_views(secs@).skip(start as int);
    let mut out: Vec<Vec<Vec<char>>> = Vec::new();
    let mut k = start;
    assert(rest.take(0) =~= Seq::<Seq<Seq<char>>>::empty());
    while k < secs.len()
        invariant
            start <= k <= secs@.len(),
            rest == sec_views(secs@).skip(start as int),
            views(trailers@) == trailer_keys(),
            views(flags@) == flag_lines(),
            views(prose@) == prose_markers(),
            sec_views(out@) == kept_sections(rest.take(k - start)),
        decreases secs@.len() - k,
    {
        assert(rest.take(k + 1 - start).drop_last() =~= rest.take(k - start));
        assert(rest.take(k + 1 - start).last() == views(secs@[k as int]@));
        if keeps_section_exec(&secs[k], &trailers, &flags, &prose) {
            let copy = copy_lines(&secs[k]);
            let ghost o0 = out@;
            out.push(copy);
            assert(out@ =~= o0.push(copy));
            assert(sec_views(out@) =~= sec_views(o0).push(views(copy@)));
        }
        k = k + 1;
    }
    assert(rest.take(secs@.len() - start) =~= rest);
    out
}

fn has_annotation_exec(sec: &Vec<Vec<char>>) -> (b: bool)
    ensures
        b == has_annotation(views(sec@)),
{
    let mut j: usize = 0;
    while j < sec.len()
        invariant
            j <= sec@.len(),
            forall|k: int| 0 <= k < j ==> !is_annotation_spec(#[trigger] views(sec@)[k]),
        decreases sec@.len() - j,
    {
        assert(views(sec@)[j as int] == sec@[j as int]@);
        if is_annotation_chars(sec[j].as_slice()) {
            return true;
        }
        j = j + 1;
    }
    false
}

fn any_annotated_exec(cands: &Vec<Vec<Vec<char>>>) -> (b: bool)
    ensures
        b == any_annotated(sec_views(cands@)),
{
    let mut i: usize = 0;
    while i < cands.len()
        invariant
            i <= cands@.len(),
            forall|k: int| 0 <= k < i ==> !has_annotation(#[trigger] sec_views(cands@)[k]),
        decreases cands@.len() - i,
    {
        assert(sec_views(cands@)[i as int] == views(cands@[i as int]@));
        if has_annotation_exec(&cands[i]) {
            return true;
        }
        i = i + 1;
    }
    false
}

fn annotation_step_exec(groups: &mut Vec<Group>, line: &[char], flags: &Vec<Vec<char>>)
    requires
        views(flags@) == flag_lines(),
    ensures
        gviews(final(groups)@) == annotation_step(gviews(old(groups)@), line@),
{
    if is_annotation_chars(line) {
        let g = Group {
            kind: classify_annotation_chars(line),
            lines: Vec::new(),
            name: annotation_name_chars(line),
            tier: annotation_tier_chars(line),
        };
        let ghost g0 = groups@;
        groups.push(g);
        assert(groups@ =~= g0.push(g));
        assert(gviews(groups@) =~= gviews(g0).push(g@));
        assert(views(g.lines@) =~= Seq::<Seq<char>>::empty());
        return ;
    }
    if groups.len() == 0 || is_decoration_exec(line) || is_flag_exec(line, flags) {
        return ;
    }
    let (text, inline) = strip_inline_markers_chars(line);
    if text.len() == 0 {
        return ;
    }
    let ghost g0 = groups@;
    let mut g = groups.pop().unwrap();
    assert(groups@ =~= g0.drop_last());
    match inline {
        Some(k) => {
            if k != g.kind && g.lines.len() == 0 {
                g.kind = k;
            }
        },
        None => {},
    }
    let ghost l0 = g.lines@;
    g.lines.push(text);
    assert(g.lines@ =~= l0.push(text));
    assert(views(g.lines@) =~= views(l0).push(text@));
    let ghost g1 = groups@;
    groups.push(g);
    assert(groups@ =~= g1.push(g));
    assert(gviews(groups@) =~= gviews(g0).update(g0.len() - 1, g@));
}

fn groups_from_annotations_exec(sec: &Vec<Vec<char>>, flags: &Vec<Vec<char>>) -> (gs: Vec<Group>)
    requires
        views(flags@) == flag_lines(),
    ensures
        gviews(gs@) == groups_from_annotations(views(sec@)),
{
    let mut groups: Vec<Group> = Vec::new();
    let mut j: usize = 0;
    assert(views(sec@).take(0) =~= Seq::<Seq<char>>::empty());
    while j < sec.len()
        invariant
            j <= sec@.len(),
            views(flags@) == flag_lines(),
            gviews(groups@) == groups_from_annotations(views(sec@).take(j as int)),
        decreases sec@.len() - j,
    {
        assert(views(sec@).take(j + 1).drop_last() =~= views(sec@).take(j as int));
        assert(views(sec@).take(j + 1).last() == sec@[j as int]@);
        annotation_step_exec(&mut groups, sec[j].as_slice(), flags);
        j = j + 1;
    }
    assert(views(sec@).take(sec@.len() as int) =~= views(sec@));
    groups
}

fn groups_from_layout_exec(
    sec: &Vec<Vec<char>>,
    positional: ModKind,
    flags: &Vec<Vec<char>>,
    prose: &Vec<Vec<char>>,
) -> (gs: Vec<Group>)
    requires
        views(flags@) == flag_lines(),
        views(prose@) == prose_markers(),
    ensures
        gviews(gs@) == groups_from_layout(views(sec@), positional),
{
    let mut groups: Vec<Group> = Vec::new();
    let mut j: usize = 0;
    assert(views(sec@).take(0) =~= Seq::<Seq<char>>::empty());
    while j < sec.len()
        invariant
            j <= sec@.len(),
            views(flags@) == flag_lines(),
            views(prose@) == prose_markers(),
            gviews(groups@) == groups_from_layout(views(sec@).take(j as int), positional),
        decreases sec@.len() - j,
    {
        assert(views(sec@).take(j + 1).drop_last() =~= views(sec@).take(j as int));
        assert(views(sec@).take(j + 1).last() == sec@[j as int]@);
        let line = sec[j].as_slice();
        if !(is_decoration_exec(line) || is_flag_exec(line, flags) || names_a_usage_exec(line, prose)) {
            let (text, inline) = strip_inline_markers_chars(line);
            if text.len() > 0 {
                let kind = match inline {
                    Some(k) => k,
                    None => positional,
                };
                let g = Group { kind, lines: vec![text], name: None, tier: None };
                assert(views(g.lines@) =~= seq![text@]);
                let ghost g0 = groups@;
                groups.push(g);
                assert(groups@ =~= g0.push(g));
                assert(gviews(groups@) =~= gviews(g0).push(g@));
            }
        }
        j = j + 1;
    }
    assert(views(sec@).take(sec@.len() as int) =~= views(sec@));
    groups
}

fn append_groups(out: &mut Vec<Group>, more: Vec<Group>)
    ensures
        gviews(final(out)@) == gviews(old(out)@) + gviews(more@),
{
    let ghost o0 = out@;
    let ghost m0 = more@;
    let mut more = more;
    out.append(&mut more);
    assert(out@ =~= o0 + m0);
    assert(gviews(out@) =~= gviews(o0) + gviews(m0));
}

fn group_to_mod(g: Group) -> (m: ModGroup)
    ensures
        m@ == g@,
{
    let lines = lines_to_strings(&g.lines);
    let name = match &g.name {
        Some(n) => Some(string_of(n.as_slice())),
        None => None,
    };
    ModGroup { kind: g.kind, lines, name, tier: g.tier }
}

fn opt_string(o: Option<Vec<char>>) -> (r: Option<String>)
    ensures
        opt_string_seq(r) == opt_chars_view(o),
{
    match o {
        Some(v) => Some(string_of(v.as_slice())),
        None => None,
    }
}


fn collect_groups(cands: &Vec<Vec<Vec<char>>>, annotated: bool, last: usize) -> (all: Vec<Group>)
    requires
        last == last_index(cands@.len() as int),
        annotated == any_annotated(sec_views(cands@)),
    ensures
        gviews(all@) == all_groups(sec_views(cands@), cands@.len() as int, last as int, annotated),
{
    let flags = flag_lines_exec();
    let prose = prose_markers_exec();
    let ghost cv = sec_views(cands@);
    let mut all: Vec<Group> = Vec::new();
    let mut c: usize = 0;
    while c < cands.len()
        invariant
            c <= cands@.len(),
            cv == sec_views(cands@),
            last == last_index(cands@.len() as int),
            annotated == any_annotated(cv),
            views(flags@) == flag_lines(),
            views(prose@) == prose_markers(),
            gviews(all@) == all_groups(cv, c as int, last as int, annotated),
        decreases cands@.len() - c,
    {
        assert(cv[c as int] == views(cands@[c as int]@));
        let sec = &cands[c];
        let more = if has_annotation_exec(sec) {
            groups_from_annotations_exec(sec, &flags)
        } else {
            let positional = if annotated || c != last {
                ModKind::Implicit
            } else {
                ModKind::Explicit
            };
            groups_from_layout_exec(sec, positional, &flags, &prose)
        };
        append_groups(&mut all, more);
        c = c + 1;
    }
    all
}

fn keep_nonempty(all: Vec<Group>) -> (groups: Vec<ModGroup>)
    ensures
        group_views(groups@) == nonempty_groups(gviews(all@)),
{
    let mut all = all;
    let ghost gall = gviews(all@);
    let mut groups: Vec<ModGroup> = Vec::new();
    let mut rev: Vec<Group> = Vec::new();
    let n = all.len();
    while all.len() > 0
        invariant
            all@.len() + rev@.len() == n,
            n == gall.len(),
            forall|k: int| 0 <= k < all@.len() ==> #[trigger] all@[k]@ == gall[k],
            forall|k: int| 0 <= k < rev@.len() ==> #[trigger] rev@[k]@ == gall[n - 1 - k],
        decreases all@.len(),
    {
        let g = all.pop().unwrap();
        rev.push(g);
    }
    let mut taken: usize = 0;
    assert(gall.take(0) =~= Seq::<GroupView>::empty());
    while rev.len() > 0
        invariant
            rev@.len() + taken == n,
            n == gall.len(),
            forall|k: int| 0 <= k < rev@.len() ==> #[trigger] rev@[k]@ == gall[n - 1 - k],
            group_views(groups@) == nonempty_groups(gall.take(taken as int)),
        decreases rev@.len(),
    {
        let g = rev.pop().unwrap();
        assert(g@ == gall[taken as int]);
        assert(gall.take(taken + 1).drop_last() =~= gall.take(taken as int));
        if g.lines.len() > 0 {
            let m = group_to_mod(g);
            let ghost g0 = groups@;
            groups.push(m);
            assert(groups@ =~= g0.push(m));
            assert(group_views(groups@) =~= group_views(g0).push(m@));
        }
        taken = taken + 1;
    }
    assert(gall.take(n as int) =~= gall);
    groups
}

/// Parses a clipboard payload into every modifier the client listed.
pub fn parse_chars(payload: &[char]) -> (r: Result<ParsedItem, ItemTextError>)
    ensures
        parse_result_view(r) == parse_spec(payload@),
{
    let normalized = normalize_newlines_exec(payload);
    let lines = split_lines(normalized.as_slice());
    let ghost lv = views(lines@);
    let mut any_sep = false;
    let mut i: usize = 0;
    while i < lines.len()
        invariant
            i <= lines@.len(),
            lv == views(lines@),
            any_sep == exists|k: int| 0 <= k < i && is_separator_spec(#[trigger] lv[k]),
        decreases lines@.len() - i,
    {
        assert(lv[i as int] == lines@[i as int]@);
        if is_separator_chars(lines[i].as_slice()) {
            any_sep = true;
        }
        i = i + 1;
    }
    if !any_sep {
        return Err(ItemTextError::NotAnItem);
    }
    let secs = split_sections_exec(&lines);
    let item_level = last_value_exec(&lines, &item_level_keys_exec());
    let rarity = last_value_exec(&lines, &rarity_keys_exec());
    let item_class = last_value_exec(&lines, &item_class_keys_exec());
    let corrupted = any_corrupted_exec(&lines);

    let cands = modifier_sections_exec(&secs);
    let annotated = any_annotated_exec(&cands);
    let last: usize = if cands.len() > 0 {
        cands.len() - 1
    } else {
        0
    };
    let all = collect_groups(&cands, annotated, last);
    let groups = keep_nonempty(all);
    if groups.len() == 0 {
        return Err(ItemTextError::NoModifierSection);
    }
    Ok(
        ParsedItem {
            groups,
            rarity: opt_string(rarity),
            item_level: opt_string(item_level),
            item_class: opt_string(item_class),
            corrupted,
            grouping_is_authoritative: annotated,
        },
    )
}

/// Parses a clipboard payload into its modifier groups and header fields.
pub fn parse(payload: &str) -> (r: Result<ParsedItem, ItemTextError>)
    ensures
        parse_result_view(r) == parse_spec(payload@),
{
    let chars = chars_of(payload);
    parse_chars(chars.as_slice())
}

} // verus!
