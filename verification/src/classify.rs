//! Works out what kind of modifier a line or annotation describes.
//!
//! Two independent signals carry this, and the client provides whichever it
//! feels like. A `{ ... }` annotation names the kind outright; failing that,
//! some lines carry an inline marker such as ` (enchant)`. Both are handled so
//! that a dump missing one still classifies correctly.
use vstd::prelude::*;

use crate::text::{
    all_digits, chars_of, contains, ends_with, find, find_first, first_index, has_infix,
    has_suffix, is_ascii_digit_spec, leading_ws, lemma_find_first, lemma_first_index,
    lemma_trim_end_len, lower, lowercase_chars, parse_u32, parse_u32_digits, position,
    slice_vec, string_of, trim, trim_chars, trim_end, trim_end_chars, trim_start, views,
};

verus! {

/// What kind of modifier a group holds.
#[derive(Clone, Copy, Debug, PartialEq, Eq, Structural, Hash)]
pub enum ModKind {
    /// A rolled prefix.
    Prefix,
    /// A rolled suffix.
    Suffix,
    /// Rolled, but the client did not say which half.
    Explicit,
    /// A rolled affix locked by a fracturing orb.
    Fractured,
    /// Bench-crafted.
    Crafted,
    /// Innate to the base item.
    Implicit,
    /// From the labyrinth, an altar, or similar.
    Enchant,
}

impl Default for ModKind {
    fn default() -> (kind: Self)
        ensures
            kind == ModKind::Explicit,
    {
        ModKind::Explicit
    }
}

/// Words the client uses inside `{ ... }`, most specific first.
pub open spec fn annotation_markers() -> Seq<(Seq<char>, ModKind)> {
    seq![
        ("已大師工藝"@, ModKind::Crafted),
        ("工藝"@, ModKind::Crafted),
        ("crafted"@, ModKind::Crafted),
        ("分裂"@, ModKind::Fractured),
        ("fractured"@, ModKind::Fractured),
        ("固有"@, ModKind::Implicit),
        ("implicit"@, ModKind::Implicit),
        ("附魔"@, ModKind::Enchant),
        ("enchant"@, ModKind::Enchant),
        ("前綴"@, ModKind::Prefix),
        ("前缀"@, ModKind::Prefix),
        ("prefix"@, ModKind::Prefix),
        ("後綴"@, ModKind::Suffix),
        ("后缀"@, ModKind::Suffix),
        ("suffix"@, ModKind::Suffix),
    ]
}

/// Markers the client appends to a line when it is not annotating separately.
pub open spec fn inline_markers() -> Seq<(Seq<char>, ModKind)> {
    seq![
        ("(enchant)"@, ModKind::Enchant),
        ("(implicit)"@, ModKind::Implicit),
        ("(crafted)"@, ModKind::Crafted),
        ("(fractured)"@, ModKind::Fractured),
        ("(rune)"@, ModKind::Enchant),
        ("(scourge)"@, ModKind::Enchant),
        ("(veiled)"@, ModKind::Crafted),
    ]
}

/// Markers that describe a property rather than a modifier.
pub open spec fn noise_markers() -> Seq<Seq<char>> {
    seq!["(augmented)"@, "(unmet)"@]
}

pub open spec fn marker_views(v: Seq<(Vec<char>, ModKind)>) -> Seq<(Seq<char>, ModKind)> {
    v.map_values(|m: (Vec<char>, ModKind)| (m.0@, m.1))
}

fn marker(text: &str, kind: ModKind) -> (m: (Vec<char>, ModKind))
    ensures
        m.0@ == text@,
        m.1 == kind,
{
    (chars_of(text), kind)
}

fn annotation_markers_exec() -> (v: Vec<(Vec<char>, ModKind)>)
    ensures
        marker_views(v@) == annotation_markers(),
{
    let v = vec![
        marker("已大師工藝", ModKind::Crafted),
        marker("工藝", ModKind::Crafted),
        marker("crafted", ModKind::Crafted),
        marker("分裂", ModKind::Fractured),
        marker("fractured", ModKind::Fractured),
        marker("固有", ModKind::Implicit),
        marker("implicit", ModKind::Implicit),
        marker("附魔", ModKind::Enchant),
        marker("enchant", ModKind::Enchant),
        marker("前綴", ModKind::Prefix),
        marker("前缀", ModKind::Prefix),
        marker("prefix", ModKind::Prefix),
        marker("後綴", ModKind::Suffix),
        marker("后缀", ModKind::Suffix),
        marker("suffix", ModKind::Suffix),
    ];
    assert(marker_views(v@) =~= annotation_markers());
    v
}

fn inline_markers_exec() -> (v: Vec<(Vec<char>, ModKind)>)
    ensures
        marker_views(v@) == inline_markers(),
{
    let v = vec![
        marker("(enchant)", ModKind::Enchant),
        marker("(implicit)", ModKind::Implicit),
        marker("(crafted)", ModKind::Crafted),
        marker("(fractured)", ModKind::Fractured),
        marker("(rune)", ModKind::Enchant),
        marker("(scourge)", ModKind::Enchant),
        marker("(veiled)", ModKind::Crafted),
    ];
    assert(marker_views(v@) =~= inline_markers());
    v
}

fn noise_markers_exec() -> (v: Vec<Vec<char>>)
    ensures
        views(v@) == noise_markers(),
{
    let v = vec![chars_of("(augmented)"), chars_of("(unmet)")];
    assert(views(v@) =~= noise_markers());
    v
}

/// A `{ ... }` annotation line.
pub open spec fn is_annotation_spec(line: Seq<char>) -> bool {
    trim_start(line).len() > 0 && trim_start(line)[0] == '{'
}

/// True for a `{ ... }` annotation line.
pub fn is_annotation(line: &str) -> (b: bool)
    ensures
        b == is_annotation_spec(line@),
{
    let chars = chars_of(line);
    is_annotation_chars(chars.as_slice())
}

pub fn is_annotation_chars(line: &[char]) -> (b: bool)
    ensures
        b == is_annotation_spec(line@),
{
    let start = leading_ws(line);
    start < line.len() && line[start] == '{'
}

/// The text before the first `"`, or all of it.
pub open spec fn head_of(s: Seq<char>) -> Seq<char> {
    match first_index(s, '"') {
        Some(i) => s.take(i),
        None => s,
    }
}

/// Kind of the first marker in `markers` that occurs in `head`.
pub open spec fn first_marker_kind(head: Seq<char>, markers: Seq<(Seq<char>, ModKind)>) -> Option<
    ModKind,
>
    decreases markers.len(),
{
    if markers.len() == 0 {
        None
    } else if contains(head, markers[0].0) {
        Some(markers[0].1)
    } else {
        first_marker_kind(head, markers.drop_first())
    }
}

/// The kind an annotation names: the first marker found in the lower-cased
/// text before the affix name, or `Explicit` when none is.
pub open spec fn classify_spec(annotation: Seq<char>) -> ModKind {
    match first_marker_kind(lower(head_of(annotation)), annotation_markers()) {
        Some(kind) => kind,
        None => ModKind::Explicit,
    }
}

/// The kind an annotation names is read from the words before the affix
/// name, lower-cased, the most specific first: a crafted word (`crafted`,
/// `工藝`, `已大師工藝`) wins over a fractured one, which wins over an
/// implicit one, then enchant, then prefix, then suffix; with none of them
/// the modifier is an explicit one of unknown half.
pub proof fn annotation_kind_is_the_most_specific_word_named(annotation: Seq<char>)
    ensures
        (contains(lower(head_of(annotation)), "已大師工藝"@) || contains(lower(head_of(annotation)), "工藝"@) || contains(lower(head_of(annotation)), "crafted"@)) ==> classify_spec(annotation) == ModKind::Crafted,
        (contains(lower(head_of(annotation)), "分裂"@) || contains(lower(head_of(annotation)), "fractured"@)) && !(contains(lower(head_of(annotation)), "已大師工藝"@) || contains(lower(head_of(annotation)), "工藝"@) || contains(lower(head_of(annotation)), "crafted"@)) ==> classify_spec(annotation) == ModKind::Fractured,
        (contains(lower(head_of(annotation)), "固有"@) || contains(lower(head_of(annotation)), "implicit"@)) && !(contains(lower(head_of(annotation)), "已大師工藝"@) || contains(lower(head_of(annotation)), "工藝"@) || contains(lower(head_of(annotation)), "crafted"@) || contains(lower(head_of(annotation)), "分裂"@) || contains(lower(head_of(annotation)), "fractured"@)) ==> classify_spec(annotation) == ModKind::Implicit,
        (contains(lower(head_of(annotation)), "附魔"@) || contains(lower(head_of(annotation)), "enchant"@)) && !(contains(lower(head_of(annotation)), "已大師工藝"@) || contains(lower(head_of(annotation)), "工藝"@) || contains(lower(head_of(annotation)), "crafted"@) || contains(lower(head_of(annotation)), "分裂"@) || contains(lower(head_of(annotation)), "fractured"@) || contains(lower(head_of(annotation)), "固有"@) || contains(lower(head_of(annotation)), "implicit"@)) ==> classify_spec(annotation) == ModKind::Enchant,
        (contains(lower(head_of(annotation)), "前綴"@) || contains(lower(head_of(annotation)), "前缀"@) || contains(lower(head_of(annotation)), "prefix"@)) && !(contains(lower(head_of(annotation)), "已大師工藝"@) || contains(lower(head_of(annotation)), "工藝"@) || contains(lower(head_of(annotation)), "crafted"@) || contains(lower(head_of(annotation)), "分裂"@) || contains(lower(head_of(annotation)), "fractured"@) || contains(lower(head_of(annotation)), "固有"@) || contains(lower(head_of(annotation)), "implicit"@) || contains(lower(head_of(annotation)), "附魔"@) || contains(lower(head_of(annotation)), "enchant"@)) ==> classify_spec(annotation) == ModKind::Prefix,
        (contains(lower(head_of(annotation)), "後綴"@) || contains(lower(head_of(annotation)), "后缀"@) || contains(lower(head_of(annotation)), "suffix"@)) && !(contains(lower(head_of(annotation)), "已大師工藝"@) || contains(lower(head_of(annotation)), "工藝"@) || contains(lower(head_of(annotation)), "crafted"@) || contains(lower(head_of(annotation)), "分裂"@) || contains(lower(head_of(annotation)), "fractured"@) || contains(lower(head_of(annotation)), "固有"@) || contains(lower(head_of(annotation)), "implicit"@) || contains(lower(head_of(annotation)), "附魔"@) || contains(lower(head_of(annotation)), "enchant"@) || contains(lower(head_of(annotation)), "前綴"@) || contains(lower(head_of(annotation)), "前缀"@) || contains(lower(head_of(annotation)), "prefix"@)) ==> classify_spec(annotation) == ModKind::Suffix,
        !(contains(lower(head_of(annotation)), "已大師工藝"@) || contains(lower(head_of(annotation)), "工藝"@) || contains(lower(head_of(annotation)), "crafted"@) || contains(lower(head_of(annotation)), "分裂"@) || contains(lower(head_of(annotation)), "fractured"@) || contains(lower(head_of(annotation)), "固有"@) || contains(lower(head_of(annotation)), "implicit"@) || contains(lower(head_of(annotation)), "附魔"@) || contains(lower(head_of(annotation)), "enchant"@) || contains(lower(head_of(annotation)), "前綴"@) || contains(lower(head_of(annotation)), "前缀"@) || contains(lower(head_of(annotation)), "prefix"@) || contains(lower(head_of(annotation)), "後綴"@) || contains(lower(head_of(annotation)), "后缀"@) || contains(lower(head_of(annotation)), "suffix"@)) ==> classify_spec(annotation) == ModKind::Explicit,
{
    reveal_with_fuel(first_marker_kind, 17);
    assert(annotation_markers().len() == 15);
    assert(annotation_markers()[0] == ("已大師工藝"@, ModKind::Crafted));
    assert(annotation_markers()[1] == ("工藝"@, ModKind::Crafted));
    assert(annotation_markers()[2] == ("crafted"@, ModKind::Crafted));
    assert(annotation_markers()[3] == ("分裂"@, ModKind::Fractured));
    assert(annotation_markers()[4] == ("fractured"@, ModKind::Fractured));
    assert(annotation_markers()[5] == ("固有"@, ModKind::Implicit));
    assert(annotation_markers()[6] == ("implicit"@, ModKind::Implicit));
    assert(annotation_markers()[7] == ("附魔"@, ModKind::Enchant));
    assert(annotation_markers()[8] == ("enchant"@, ModKind::Enchant));
    assert(annotation_markers()[9] == ("前綴"@, ModKind::Prefix));
    assert(annotation_markers()[10] == ("前缀"@, ModKind::Prefix));
    assert(annotation_markers()[11] == ("prefix"@, ModKind::Prefix));
    assert(annotation_markers()[12] == ("後綴"@, ModKind::Suffix));
    assert(annotation_markers()[13] == ("后缀"@, ModKind::Suffix));
    assert(annotation_markers()[14] == ("suffix"@, ModKind::Suffix));
    let ms = annotation_markers();
    assert(ms.skip(0).drop_first() =~= ms.skip(1));
    assert(ms.skip(1).drop_first() =~= ms.skip(2));
    assert(ms.skip(2).drop_first() =~= ms.skip(3));
    assert(ms.skip(3).drop_first() =~= ms.skip(4));
    assert(ms.skip(4).drop_first() =~= ms.skip(5));
    assert(ms.skip(5).drop_first() =~= ms.skip(6));
    assert(ms.skip(6).drop_first() =~= ms.skip(7));
    assert(ms.skip(7).drop_first() =~= ms.skip(8));
    assert(ms.skip(8).drop_first() =~= ms.skip(9));
    assert(ms.skip(9).drop_first() =~= ms.skip(10));
    assert(ms.skip(10).drop_first() =~= ms.skip(11));
    assert(ms.skip(11).drop_first() =~= ms.skip(12));
    assert(ms.skip(12).drop_first() =~= ms.skip(13));
    assert(ms.skip(13).drop_first() =~= ms.skip(14));
    assert(ms.skip(14).drop_first() =~= ms.skip(15));
}

fn first_marker_kind_exec(head: &[char], markers: &Vec<(Vec<char>, ModKind)>) -> (r: Option<
    ModKind,
>)
    ensures
        r == first_marker_kind(head@, marker_views(markers@)),
{
    let mut i: usize = 0;
    assert(marker_views(markers@).skip(0) =~= marker_views(markers@));
    while i < markers.len()
        invariant
            i <= markers@.len(),
            first_marker_kind(head@, marker_views(markers@)) == first_marker_kind(
                head@,
                marker_views(markers@).skip(i as int),
            ),
        decreases markers@.len() - i,
    {
        assert(marker_views(markers@).skip(i as int).drop_first() =~= marker_views(markers@).skip(
            i + 1,
        ));
        if has_infix(head, markers[i].0.as_slice()) {
            return Some(markers[i].1);
        }
        i = i + 1;
    }
    None
}

/// Classifies a `{ ... }` annotation.
///
/// Only the text before the affix name is considered: the name itself can
/// contain a marker (`"工藝之"` embeds 工藝).
pub fn classify_annotation(annotation: &str) -> (kind: ModKind)
    ensures
        kind == classify_spec(annotation@),
{
    let chars = chars_of(annotation);
    classify_annotation_chars(chars.as_slice())
}

pub fn classify_annotation_chars(annotation: &[char]) -> (kind: ModKind)
    ensures
        kind == classify_spec(annotation@),
{
    let head = match position(annotation, '"') {
        Some(i) => slice_vec(annotation, 0, i),
        None => slice_vec(annotation, 0, annotation.len()),
    };
    assert(head@ =~= head_of(annotation@));
    let lowered = lowercase_chars(head.as_slice());
    let markers = annotation_markers_exec();
    match first_marker_kind_exec(lowered.as_slice(), &markers) {
        Some(kind) => kind,
        None => ModKind::Explicit,
    }
}

/// The affix name between the first two `"`, trimmed; absent when empty.
pub open spec fn annotation_name_spec(s: Seq<char>) -> Option<Seq<char>> {
    match first_index(s, '"') {
        None => None,
        Some(i) => {
            let after = s.skip(i + 1);
            match first_index(after, '"') {
                None => None,
                Some(j) => {
                    let name = trim(after.take(j));
                    if name.len() == 0 {
                        None
                    } else {
                        Some(name)
                    }
                },
            }
        },
    }
}

pub open spec fn opt_string_view(o: Option<String>) -> Option<Seq<char>> {
    match o {
        Some(s) => Some(s@),
        None => None,
    }
}

/// Pulls the affix name out of an annotation, such as `獨裁者的`.
pub fn annotation_name(annotation: &str) -> (name: Option<String>)
    ensures
        opt_string_view(name) == annotation_name_spec(annotation@),
{
    let chars = chars_of(annotation);
    match annotation_name_chars(chars.as_slice()) {
        Some(v) => Some(string_of(v.as_slice())),
        None => None,
    }
}

pub open spec fn opt_chars_view(o: Option<Vec<char>>) -> Option<Seq<char>> {
    match o {
        Some(s) => Some(s@),
        None => None,
    }
}

pub fn annotation_name_chars(s: &[char]) -> (name: Option<Vec<char>>)
    ensures
        opt_chars_view(name) == annotation_name_spec(s@),
{
    let n = s.len();
    let i = match position(s, '"') {
        Some(i) => i,
        None => return None,
    };
    proof {
        lemma_first_index(s@, '"');
    }
    let after = slice_vec(s, i + 1, n);
    assert(after@ =~= s@.skip(i + 1));
    let j = match position(after.as_slice(), '"') {
        Some(j) => j,
        None => return None,
    };
    proof {
        lemma_first_index(after@, '"');
    }
    let raw = slice_vec(after.as_slice(), 0, j);
    assert(raw@ =~= after@.take(j as int));
    let name = trim_chars(raw.as_slice());
    if name.len() == 0 {
        None
    } else {
        Some(name)
    }
}

/// Keys that introduce a tier in an annotation.
pub open spec fn tier_keys() -> Seq<Seq<char>> {
    seq!["階層"@, "阶层"@, "tier"@]
}

/// Where the first key (in key order) that occurs in `lowered` ends.
pub open spec fn tier_key_end(lowered: Seq<char>, keys: Seq<Seq<char>>) -> Option<int>
    decreases keys.len(),
{
    if keys.len() == 0 {
        None
    } else {
        match find_first(lowered, keys[0]) {
            Some(at) => Some(at + keys[0].len()),
            None => tier_key_end(lowered, keys.drop_first()),
        }
    }
}

pub open spec fn skip_non_digits(s: Seq<char>) -> Seq<char>
    decreases s.len(),
{
    if s.len() > 0 && !is_ascii_digit_spec(s[0]) {
        skip_non_digits(s.drop_first())
    } else {
        s
    }
}

pub open spec fn leading_digits(s: Seq<char>) -> Seq<char>
    decreases s.len(),
{
    if s.len() > 0 && is_ascii_digit_spec(s[0]) {
        seq![s[0]] + leading_digits(s.drop_first())
    } else {
        Seq::empty()
    }
}

/// The tier an annotation states: the first run of digits after the first
/// tier key found in the lower-cased annotation.
pub open spec fn annotation_tier_spec(s: Seq<char>) -> Option<u32> {
    let lowered = lower(s);
    match tier_key_end(lowered, tier_keys()) {
        None => None,
        Some(end) => parse_u32_digits(leading_digits(skip_non_digits(lowered.skip(end)))),
    }
}

fn tier_key_end_exec(lowered: &[char]) -> (r: Option<usize>)
    ensures
        match r {
            Some(e) => tier_key_end(lowered@, tier_keys()) == Some(e as int) && e <= lowered@.len(),
            None => tier_key_end(lowered@, tier_keys()) is None,
        },
{
    let keys = vec![chars_of("階層"), chars_of("阶层"), chars_of("tier")];
    assert(views(keys@) =~= tier_keys());
    let n = lowered.len();
    let mut i: usize = 0;
    assert(tier_keys().skip(0) =~= tier_keys());
    while i < keys.len()
        invariant
            n == lowered@.len(),
            i <= keys@.len(),
            views(keys@) == tier_keys(),
            tier_key_end(lowered@, tier_keys()) == tier_key_end(
                lowered@,
                tier_keys().skip(i as int),
            ),
        decreases keys@.len() - i,
    {
        assert(tier_keys().skip(i as int).drop_first() =~= tier_keys().skip(i + 1));
        assert(tier_keys().skip(i as int)[0] == keys@[i as int]@);
        match find(lowered, keys[i].as_slice()) {
            Some(at) => {
                proof {
                    lemma_find_first(lowered@, keys@[i as int]@);
                }
                return Some(at + keys[i].len());
            },
            None => {},
        }
        i = i + 1;
    }
    None
}

fn digits_after(s: &[char], from: usize) -> (d: Vec<char>)
    requires
        from <= s@.len(),
    ensures
        d@ == leading_digits(skip_non_digits(s@.skip(from as int))),
        all_digits(d@),
{
    let mut i = from;
    assert(s@.skip(from as int) =~= s@.skip(i as int));
    while i < s.len() && !(s[i] >= '0' && s[i] <= '9')
        invariant
            from <= i <= s@.len(),
            skip_non_digits(s@.skip(from as int)) == skip_non_digits(s@.skip(i as int)),
        decreases s@.len() - i,
    {
        assert(s@.skip(i as int).drop_first() =~= s@.skip(i + 1));
        i = i + 1;
    }
    let start = i;
    assert(skip_non_digits(s@.skip(start as int)) =~= s@.skip(start as int));
    let mut d: Vec<char> = Vec::new();
    while i < s.len() && s[i] >= '0' && s[i] <= '9'
        invariant
            start <= i <= s@.len(),
            d@ == s@.subrange(start as int, i as int),
            all_digits(d@),
            leading_digits(s@.skip(start as int)) == d@ + leading_digits(s@.skip(i as int)),
        decreases s@.len() - i,
    {
        assert(s@.skip(i as int).drop_first() =~= s@.skip(i + 1));
        let ghost old_d = d@;
        d.push(s[i]);
        assert(d@ =~= s@.subrange(start as int, i + 1));
        assert(old_d + leading_digits(s@.skip(i as int)) =~= d@ + leading_digits(s@.skip(i + 1)));
        i = i + 1;
    }
    assert(leading_digits(s@.skip(i as int)) =~= Seq::<char>::empty());
    assert(d@ + Seq::<char>::empty() =~= d@);
    d
}

/// Pulls the tier out of an annotation, from `(階層：1)` or `(Tier: 1)`.
///
/// The digits are read from the lower-cased text; lower-casing never turns a
/// character into an ASCII digit, so they are the annotation's own digits.
pub fn annotation_tier(annotation: &str) -> (tier: Option<u32>)
    ensures
        tier == annotation_tier_spec(annotation@),
{
    let chars = chars_of(annotation);
    annotation_tier_chars(chars.as_slice())
}

pub fn annotation_tier_chars(s: &[char]) -> (tier: Option<u32>)
    ensures
        tier == annotation_tier_spec(s@),
{
    let lowered = lowercase_chars(s);
    match tier_key_end_exec(lowered.as_slice()) {
        None => None,
        Some(end) => {
            let digits = digits_after(lowered.as_slice(), end);
            parse_u32(digits.as_slice())
        },
    }
}

/// The first marker (in order) that the lower-cased line ends with.
pub open spec fn first_suffix_marker(lowered: Seq<char>, markers: Seq<(Seq<char>, ModKind)>) -> Option<
    (Seq<char>, ModKind),
>
    decreases markers.len(),
{
    if markers.len() == 0 {
        None
    } else if ends_with(lowered, markers[0].0) {
        Some(markers[0])
    } else {
        first_suffix_marker(lowered, markers.drop_first())
    }
}

pub open spec fn first_suffix_noise(lowered: Seq<char>, markers: Seq<Seq<char>>) -> Option<
    Seq<char>,
>
    decreases markers.len(),
{
    if markers.len() == 0 {
        None
    } else if ends_with(lowered, markers[0]) {
        Some(markers[0])
    } else {
        first_suffix_noise(lowered, markers.drop_first())
    }
}

/// `text` with its last `n` characters removed and trailing space trimmed.
pub open spec fn cut_tail(text: Seq<char>, n: int) -> Seq<char> {
    trim_end(text.take(text.len() - n))
}

/// Repeatedly removes a trailing inline or noise marker (inline markers first),
/// remembering the kind of the first inline marker removed.
pub open spec fn strip_markers_from(text: Seq<char>, kind: Option<ModKind>) -> (Seq<char>, Option<
    ModKind,
>)
    decreases text.len(),
{
    let lowered = lower(text);
    match first_suffix_marker(lowered, inline_markers()) {
        Some(m) => {
            if 0 < m.0.len() <= text.len() {
                proof {
                    lemma_trim_end_len(text.take(text.len() - m.0.len()));
                }
                strip_markers_from(
                    cut_tail(text, m.0.len() as int),
                    if kind is Some {
                        kind
                    } else {
                        Some(m.1)
                    },
                )
            } else {
                (text, kind)
            }
        },
        None => match first_suffix_noise(lowered, noise_markers()) {
            Some(m) => {
                if 0 < m.len() <= text.len() {
                    proof {
                        lemma_trim_end_len(text.take(text.len() - m.len()));
                    }
                    strip_markers_from(cut_tail(text, m.len() as int), kind)
                } else {
                    (text, kind)
                }
            },
            None => (text, kind),
        },
    }
}

pub open spec fn strip_inline_markers_spec(line: Seq<char>) -> (Seq<char>, Option<ModKind>) {
    strip_markers_from(trim(line), None)
}

/// Trimming the end keeps a prefix.
proof fn lemma_trim_end_prefix(s: Seq<char>)
    ensures
        trim_end(s).len() <= s.len(),
        trim_end(s) == s.take(trim_end(s).len() as int),
    decreases s.len(),
{
    if s.len() > 0 && crate::text::is_ws(s.last()) {
        lemma_trim_end_prefix(s.drop_last());
        assert(s.drop_last().take(trim_end(s).len() as int) =~= s.take(trim_end(s).len() as int));
    } else {
        assert(s.take(s.len() as int) =~= s);
    }
}

/// Stripping markers keeps a prefix of the text.
pub proof fn lemma_strip_keeps_prefix(text: Seq<char>, kind: Option<ModKind>)
    ensures
        strip_markers_from(text, kind).0.len() <= text.len(),
        strip_markers_from(text, kind).0 == text.take(strip_markers_from(text, kind).0.len() as int),
    decreases text.len(),
{
    let lowered = lower(text);
    let r = strip_markers_from(text, kind).0;
    match first_suffix_marker(lowered, inline_markers()) {
        Some(m) => {
            if 0 < m.0.len() <= text.len() {
                let t = text.take(text.len() - m.0.len());
                lemma_trim_end_prefix(t);
                let c = cut_tail(text, m.0.len() as int);
                lemma_strip_keeps_prefix(c, if kind is Some { kind } else { Some(m.1) });
                assert(c == t.take(c.len() as int));
                assert(r == c.take(r.len() as int));
                assert(r =~= text.take(r.len() as int));
            } else {
                assert(text.take(text.len() as int) =~= text);
            }
        },
        None => match first_suffix_noise(lowered, noise_markers()) {
            Some(m) => {
                if 0 < m.len() <= text.len() {
                    let t = text.take(text.len() - m.len());
                    lemma_trim_end_prefix(t);
                    let c = cut_tail(text, m.len() as int);
                    lemma_strip_keeps_prefix(c, kind);
                    assert(c == t.take(c.len() as int));
                    assert(r == c.take(r.len() as int));
                    assert(r =~= text.take(r.len() as int));
                } else {
                    assert(text.take(text.len() as int) =~= text);
                }
            },
            None => {
                assert(text.take(text.len() as int) =~= text);
            },
        },
    }
}

/// Stripping markers leaves text from which there is nothing more to strip.
pub proof fn lemma_strip_settled(text: Seq<char>, kind: Option<ModKind>, again: Option<ModKind>)
    ensures
        strip_markers_from(strip_markers_from(text, kind).0, again).0 == strip_markers_from(text, kind).0,
    decreases text.len(),
{
    let lowered = lower(text);
    match first_suffix_marker(lowered, inline_markers()) {
        Some(m) => {
            if 0 < m.0.len() <= text.len() {
                lemma_trim_end_len(text.take(text.len() - m.0.len()));
                lemma_strip_settled(
                    cut_tail(text, m.0.len() as int),
                    if kind is Some {
                        kind
                    } else {
                        Some(m.1)
                    },
                    again,
                );
            }
        },
        None => match first_suffix_noise(lowered, noise_markers()) {
            Some(m) => {
                if 0 < m.len() <= text.len() {
                    lemma_trim_end_len(text.take(text.len() - m.len()));
                    lemma_strip_settled(cut_tail(text, m.len() as int), kind, again);
                }
            },
            None => {},
        },
    }
}

/// A line that keeps text after its markers are stripped starts that text
/// where the line's first non-blank character stands.
pub proof fn lemma_stripped_start(line: Seq<char>)
    requires
        strip_inline_markers_spec(line).0.len() > 0,
    ensures
        trim_start(line).len() > 0,
        strip_inline_markers_spec(line).0[0] == trim_start(line)[0],
        !crate::text::is_ws(trim_start(line)[0]),
{
    let ts = trim_start(line);
    lemma_strip_keeps_prefix(trim(line), None);
    lemma_trim_end_prefix(ts);
    let t = strip_inline_markers_spec(line).0;
    assert(t[0] == trim(line)[0]);
    assert(trim(line)[0] == ts[0]);
    lemma_trim_start_head(line);
}

proof fn lemma_trim_start_head(s: Seq<char>)
    ensures
        trim_start(s).len() > 0 ==> !crate::text::is_ws(trim_start(s)[0]),
    decreases s.len(),
{
    if s.len() > 0 && crate::text::is_ws(s[0]) {
        lemma_trim_start_head(s.drop_first());
    }
}

fn first_suffix_marker_exec(lowered: &[char], markers: &Vec<(Vec<char>, ModKind)>) -> (r: Option<
    usize,
>)
    ensures
        match r {
            Some(i) => i < markers@.len() && first_suffix_marker(lowered@, marker_views(markers@))
                == Some(marker_views(markers@)[i as int]),
            None => first_suffix_marker(lowered@, marker_views(markers@)) is None,
        },
{
    let mut i: usize = 0;
    assert(marker_views(markers@).skip(0) =~= marker_views(markers@));
    while i < markers.len()
        invariant
            i <= markers@.len(),
            first_suffix_marker(lowered@, marker_views(markers@)) == first_suffix_marker(
                lowered@,
                marker_views(markers@).skip(i as int),
            ),
        decreases markers@.len() - i,
    {
        assert(marker_views(markers@).skip(i as int).drop_first() =~= marker_views(markers@).skip(
            i + 1,
        ));
        if has_suffix(lowered, markers[i].0.as_slice()) {
            return Some(i);
        }
        i = i + 1;
    }
    None
}

fn first_suffix_noise_exec(lowered: &[char], markers: &Vec<Vec<char>>) -> (r: Option<usize>)
    ensures
        match r {
            Some(i) => i < markers@.len() && first_suffix_noise(lowered@, views(markers@)) == Some(
                views(markers@)[i as int],
            ),
            None => first_suffix_noise(lowered@, views(markers@)) is None,
        },
{
    let mut i: usize = 0;
    assert(views(markers@).skip(0) =~= views(markers@));
    while i < markers.len()
        invariant
            i <= markers@.len(),
            first_suffix_noise(lowered@, views(markers@)) == first_suffix_noise(
                lowered@,
                views(markers@).skip(i as int),
            ),
        decreases markers@.len() - i,
    {
        assert(views(markers@).skip(i as int).drop_first() =~= views(markers@).skip(i + 1));
        if has_suffix(lowered, markers[i].as_slice()) {
            return Some(i);
        }
        i = i + 1;
    }
    None
}

pub fn strip_inline_markers_chars(line: &[char]) -> (r: (Vec<char>, Option<ModKind>))
    ensures
        (r.0@, r.1) == strip_inline_markers_spec(line@),
{
    let inline = inline_markers_exec();
    let noise = noise_markers_exec();
    let mut text = trim_chars(line);
    let mut kind: Option<ModKind> = None;
    loop
        invariant
            marker_views(inline@) == inline_markers(),
            views(noise@) == noise_markers(),
            strip_markers_from(text@, kind) == strip_inline_markers_spec(line@),
        decreases text@.len(),
    {
        let lowered = lowercase_chars(text.as_slice());
        match first_suffix_marker_exec(lowered.as_slice(), &inline) {
            Some(i) => {
                let n = inline[i].0.len();
                if 0 < n && n <= text.len() {
                    let cut = slice_vec(text.as_slice(), 0, text.len() - n);
                    assert(cut@ =~= text@.take(text@.len() - n));
                    let next = trim_end_chars(cut.as_slice());
                    proof {
                        lemma_trim_end_len(cut@);
                    }
                    if kind.is_none() {
                        kind = Some(inline[i].1);
                    }
                    text = next;
                } else {
                    return (text, kind);
                }
            },
            None => match first_suffix_noise_exec(lowered.as_slice(), &noise) {
                Some(i) => {
                    let n = noise[i].len();
                    if 0 < n && n <= text.len() {
                        let cut = slice_vec(text.as_slice(), 0, text.len() - n);
                        assert(cut@ =~= text@.take(text@.len() - n));
                        let next = trim_end_chars(cut.as_slice());
                        proof {
                            lemma_trim_end_len(cut@);
                        }
                        text = next;
                    } else {
                        return (text, kind);
                    }
                },
                None => {
                    return (text, kind);
                },
            },
        }
    }
}

/// Strips inline markers from a line, reporting any kind they implied.
///
/// Property noise such as `(augmented)` is removed without implying a kind.
pub fn strip_inline_markers(line: &str) -> (r: (String, Option<ModKind>))
    ensures
        (r.0@, r.1) == strip_inline_markers_spec(line@),
{
    let chars = chars_of(line);
    let (text, kind) = strip_inline_markers_chars(chars.as_slice());
    (string_of(text.as_slice()), kind)
}

} // verus!
