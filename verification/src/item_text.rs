//! The flat reading of a clipboard item dump used by the field harness: the
//! affix lines in tooltip order, plus rarity, item level and corruption.
//!
//! The client writes sections separated by a run of dashes. Section keys are
//! localized and the simplified-Chinese client pads two-character keys with
//! spaces (`稀 有 度`), so every key comparison happens on a copy of the line
//! with white space removed and ASCII lower-cased.
use vstd::prelude::*;

use crate::sections::{
    is_member, is_separator_chars, is_separator_spec, member_exec, normalize_newlines,
    normalize_newlines_exec, sec_views, split_sections, split_sections_exec, starts_with_any,
    starts_with_any_exec,
};
use crate::text::{
    starts_with,
    char_to_lowercase, chars_of, first_index, is_whitespace, is_ws, lemma_first_index,
    lines_of, lines_to_strings, lowercase_of, position, slice_vec, split_lines, string_of,
    string_views, trim, trim_chars, views,
};

verus! {

/// Keys that open the header block.
pub open spec fn header_keys() -> Seq<Seq<char>> {
    seq!["itemclass:"@, "rarity:"@, "物品類別:"@, "物品类别:"@, "稀有度:"@]
}

/// Keys that open a metadata block between the header and the affixes.
pub open spec fn metadata_keys() -> Seq<Seq<char>> {
    seq![
        "requirements:"@,
        "sockets:"@,
        "itemlevel:"@,
        "quality:"@,
        "armour:"@,
        "evasionrating:"@,
        "energyshield:"@,
        "stacksize:"@,
        "需求:"@,
        "插槽:"@,
        "物品等級:"@,
        "物品等级:"@,
        "品質:"@,
        "品质:"@,
        "護甲:"@,
        "护甲:"@,
        "閃避值:"@,
        "闪避值:"@,
        "能量護盾:"@,
        "能量护盾:"@,
        "堆疊數量:"@,
        "堆叠数量:"@,
    ]
}

/// Keys that open a trailing block after the affixes.
pub open spec fn trailer_keys() -> Seq<Seq<char>> {
    seq!["note:"@, "備註:"@, "备注:"@, "出售"@, "sellprice"@]
}

/// Every key whose block carries no affixes.
pub open spec fn block_keys() -> Seq<Seq<char>> {
    header_keys() + metadata_keys() + trailer_keys()
}

/// Standalone lines that are status flags rather than affixes.
pub open spec fn status_lines() -> Seq<Seq<char>> {
    seq![
        "corrupted"@,
        "unidentified"@,
        "mirrored"@,
        "split"@,
        "synthesiseditem"@,
        "已腐化"@,
        "未鑑定"@,
        "未鉴定"@,
        "已複製"@,
        "已复制"@,
    ]
}

pub open spec fn level_keys() -> Seq<Seq<char>> {
    seq!["itemlevel:"@, "物品等級:"@, "物品等级:"@]
}

pub open spec fn rarity_keys() -> Seq<Seq<char>> {
    seq!["rarity:"@, "稀有度:"@]
}

pub open spec fn corruption_keys() -> Seq<Seq<char>> {
    seq!["corrupted"@, "已腐化"@]
}

fn block_keys_exec() -> (v: Vec<Vec<char>>)
    ensures
        views(v@) == block_keys(),
{
    let v = vec![
        chars_of("itemclass:"),
        chars_of("rarity:"),
        chars_of("物品類別:"),
        chars_of("物品类别:"),
        chars_of("稀有度:"),
        chars_of("requirements:"),
        chars_of("sockets:"),
        chars_of("itemlevel:"),
        chars_of("quality:"),
        chars_of("armour:"),
        chars_of("evasionrating:"),
        chars_of("energyshield:"),
        chars_of("stacksize:"),
        chars_of("需求:"),
        chars_of("插槽:"),
        chars_of("物品等級:"),
        chars_of("物品等级:"),
        chars_of("品質:"),
        chars_of("品质:"),
        chars_of("護甲:"),
        chars_of("护甲:"),
        chars_of("閃避值:"),
        chars_of("闪避值:"),
        chars_of("能量護盾:"),
        chars_of("能量护盾:"),
        chars_of("堆疊數量:"),
        chars_of("堆叠数量:"),
        chars_of("note:"),
        chars_of("備註:"),
        chars_of("备注:"),
        chars_of("出售"),
        chars_of("sellprice"),
    ];
    assert(views(v@) =~= block_keys());
    v
}

fn status_lines_exec() -> (v: Vec<Vec<char>>)
    ensures
        views(v@) == status_lines(),
{
    let v = vec![
        chars_of("corrupted"),
        chars_of("unidentified"),
        chars_of("mirrored"),
        chars_of("split"),
        chars_of("synthesiseditem"),
        chars_of("已腐化"),
        chars_of("未鑑定"),
        chars_of("未鉴定"),
        chars_of("已複製"),
        chars_of("已复制"),
    ];
    assert(views(v@) =~= status_lines());
    v
}

fn level_keys_exec() -> (v: Vec<Vec<char>>)
    ensures
        views(v@) == level_keys(),
{
    let v = vec![chars_of("itemlevel:"), chars_of("物品等級:"), chars_of("物品等级:")];
    assert(views(v@) =~= level_keys());
    v
}

fn rarity_keys_exec() -> (v: Vec<Vec<char>>)
    ensures
        views(v@) == rarity_keys(),
{
    let v = vec![chars_of("rarity:"), chars_of("稀有度:")];
    assert(views(v@) =~= rarity_keys());
    v
}

fn corruption_keys_exec() -> (v: Vec<Vec<char>>)
    ensures
        views(v@) == corruption_keys(),
{
    let v = vec![chars_of("corrupted"), chars_of("已腐化")];
    assert(views(v@) =~= corruption_keys());
    v
}

/// A line with white space removed and every character lower-cased.
pub open spec fn squeezed(s: Seq<char>) -> Seq<char>
    decreases s.len(),
{
    if s.len() == 0 {
        Seq::empty()
    } else if is_ws(s.last()) {
        squeezed(s.drop_last())
    } else {
        squeezed(s.drop_last()) + lowercase_of(s.last())
    }
}

fn squeeze(s: &[char]) -> (out: Vec<char>)
    ensures
        out@ == squeezed(s@),
{
    let n = s.len();
    let mut out: Vec<char> = Vec::new();
    let mut i: usize = 0;
    while i < n
        invariant
            n == s@.len(),
            i <= n,
            out@ == squeezed(s@.take(i as int)),
        decreases n - i,
    {
        assert(s@.take(i + 1).drop_last() =~= s@.take(i as int));
        if !is_whitespace(s[i]) {
            let l = char_to_lowercase(s[i]);
            crate::text::push_all(&mut out, l.as_slice());
        }
        i = i + 1;
    }
    assert(s@.take(n as int) =~= s@);
    out
}

/// The trimmed text after the first `:` of a line whose squeezed form starts
/// with one of `keys`.
pub open spec fn keyed_value(line: Seq<char>, keys: Seq<Seq<char>>) -> Option<Seq<char>> {
    if !starts_with_any(squeezed(line), keys) {
        None
    } else {
        match first_index(line, ':') {
            Some(i) => Some(trim(line.skip(i + 1))),
            None => None,
        }
    }
}

fn keyed_value_exec(line: &[char], keys: &Vec<Vec<char>>) -> (r: Option<Vec<char>>)
    ensures
        match r {
            Some(v) => keyed_value(line@, views(keys@)) == Some(v@),
            None => keyed_value(line@, views(keys@)) is None,
        },
{
    let s = squeeze(line);
    if !starts_with_any_exec(s.as_slice(), keys) {
        return None;
    }
    let n = line.len();
    match position(line, ':') {
        Some(i) => {
            let rest = slice_vec(line, i + 1, n);
            assert(rest@ =~= line@.skip(i + 1));
            Some(trim_chars(rest.as_slice()))
        },
        None => None,
    }
}

/// The value of the last line that carries one of `keys`.
pub open spec fn last_keyed_value(lines: Seq<Seq<char>>, keys: Seq<Seq<char>>) -> Option<Seq<char>>
    decreases lines.len(),
{
    if lines.len() == 0 {
        None
    } else {
        match keyed_value(lines.last(), keys) {
            Some(v) => Some(v),
            None => last_keyed_value(lines.drop_last(), keys),
        }
    }
}

/// A rider the client adds when advanced descriptions are on.
pub open spec fn is_rider(line: Seq<char>) -> bool {
    line.len() > 0 && (line[0] == '{' || line[0] == '(')
}

pub open spec fn is_status(line: Seq<char>) -> bool {
    is_member(squeezed(line), status_lines())
}

/// A section that carries no affixes: empty, opened by a block key, or made
/// of status flags only.
pub open spec fn skipped(sec: Seq<Seq<char>>) -> bool {
    sec.len() == 0 || starts_with_any(squeezed(sec[0]), block_keys()) || forall|k: int|
        0 <= k < sec.len() ==> is_status(#[trigger] sec[k])
}

/// The affix lines of a section that is not skipped: riders and flags removed.
pub open spec fn kept(sec: Seq<Seq<char>>) -> Seq<Seq<char>>
    decreases sec.len(),
{
    if sec.len() == 0 {
        Seq::empty()
    } else if is_rider(sec.last()) || is_status(sec.last()) {
        kept(sec.drop_last())
    } else {
        kept(sec.drop_last()).push(sec.last())
    }
}

pub open spec fn affixes(secs: Seq<Seq<Seq<char>>>) -> Seq<Seq<char>>
    decreases secs.len(),
{
    if secs.len() == 0 {
        Seq::empty()
    } else if skipped(secs.last()) {
        affixes(secs.drop_last())
    } else {
        affixes(secs.drop_last()) + kept(secs.last())
    }
}

/// Every line of every section, in order.
pub open spec fn flatten(secs: Seq<Seq<Seq<char>>>) -> Seq<Seq<char>>
    decreases secs.len(),
{
    if secs.len() == 0 {
        Seq::empty()
    } else {
        flatten(secs.drop_last()) + secs.last()
    }
}

pub open spec fn marks_corruption(lines: Seq<Seq<char>>) -> bool {
    exists|k: int| 0 <= k < lines.len() && starts_with_any(squeezed(#[trigger] lines[k]), corruption_keys())
}

/// The flat reading of a dump.
#[derive(Clone, Debug, Default, PartialEq, Eq)]
pub struct ParsedItem {
    /// Lines the rule engine should evaluate, in tooltip order.
    pub affix_lines: Vec<String>,
    /// Rarity as the client wrote it.
    pub rarity: Option<String>,
    /// Item level as written.
    pub item_level: Option<String>,
    /// The dump carried a corruption marker.
    pub corrupted: bool,
}

pub struct FlatItemView {
    pub affix_lines: Seq<Seq<char>>,
    pub rarity: Option<Seq<char>>,
    pub item_level: Option<Seq<char>>,
    pub corrupted: bool,
}

pub open spec fn opt_view(o: Option<String>) -> Option<Seq<char>> {
    match o {
        Some(s) => Some(s@),
        None => None,
    }
}

impl View for ParsedItem {
    type V = FlatItemView;

    open spec fn view(&self) -> FlatItemView {
        FlatItemView {
            affix_lines: string_views(self.affix_lines@),
            rarity: opt_view(self.rarity),
            item_level: opt_view(self.item_level),
            corrupted: self.corrupted,
        }
    }
}

/// Why a payload could not be read as an item.
#[derive(Clone, Copy, Debug, PartialEq, Eq, Structural)]
pub enum ItemTextError {
    /// No dash separator: not an item dump at all.
    NotAnItem,
    /// An item dump without an affix section.
    NoAffixSection,
}

impl ItemTextError {
    pub open spec fn message_spec(self) -> Seq<char> {
        match self {
            ItemTextError::NotAnItem => "clipboard payload is not a POE item dump"@,
            ItemTextError::NoAffixSection => "item dump carried no recognizable affix section"@,
        }
    }

    /// What went wrong, in words.
    pub fn message(&self) -> (s: &'static str)
        ensures
            s@ == self.message_spec(),
    {
        match self {
            ItemTextError::NotAnItem => "clipboard payload is not a POE item dump",
            ItemTextError::NoAffixSection => "item dump carried no recognizable affix section",
        }
    }
}

/// The lines of a payload after its line endings are normalized.
pub open spec fn payload_lines(payload: Seq<char>) -> Seq<Seq<char>> {
    lines_of(normalize_newlines(payload))
}

pub open spec fn has_separator(lines: Seq<Seq<char>>) -> bool {
    exists|k: int| 0 <= k < lines.len() && is_separator_spec(#[trigger] lines[k])
}

/// What `parse` makes of a payload.
pub open spec fn flat_parse(payload: Seq<char>) -> Result<FlatItemView, ItemTextError> {
    let lines = payload_lines(payload);
    let secs = split_sections(lines);
    if !has_separator(lines) {
        Err(ItemTextError::NotAnItem)
    } else if affixes(secs).len() == 0 {
        Err(ItemTextError::NoAffixSection)
    } else {
        Ok(
            FlatItemView {
                affix_lines: affixes(secs),
                rarity: last_keyed_value(flatten(secs), rarity_keys()),
                item_level: last_keyed_value(flatten(secs), level_keys()),
                corrupted: marks_corruption(flatten(secs)),
            },
        )
    }
}

fn any_separator(lines: &Vec<Vec<char>>) -> (b: bool)
    ensures
        b == has_separator(views(lines@)),
{
    let n = lines.len();
    let mut k: usize = 0;
    while k < n
        invariant
            n == lines@.len(),
            k <= n,
            forall|m: int| 0 <= m < k ==> !is_separator_spec(#[trigger] views(lines@)[m]),
        decreases n - k,
    {
        if is_separator_chars(lines[k].as_slice()) {
            assert(is_separator_spec(views(lines@)[k as int]));
            return true;
        }
        k = k + 1;
    }
    false
}

fn status_exec(line: &[char], status: &Vec<Vec<char>>) -> (b: bool)
    requires
        views(status@) == status_lines(),
    ensures
        b == is_status(line@),
{
    let s = squeeze(line);
    member_exec(s.as_slice(), status)
}

fn section_skipped(sec: &Vec<Vec<char>>, keys: &Vec<Vec<char>>, status: &Vec<Vec<char>>) -> (b: bool)
    requires
        views(keys@) == block_keys(),
        views(status@) == status_lines(),
    ensures
        b == skipped(views(sec@)),
{
    let n = sec.len();
    if n == 0 {
        return true;
    }
    let first = squeeze(sec[0].as_slice());
    if starts_with_any_exec(first.as_slice(), keys) {
        return true;
    }
    assert(views(sec@)[0] == sec@[0]@);
    let mut k: usize = 0;
    while k < n
        invariant
            n == sec@.len(),
            n > 0,
            k <= n,
            views(status@) == status_lines(),
            !starts_with_any(squeezed(views(sec@)[0]), block_keys()),
            forall|m: int| 0 <= m < k ==> is_status(#[trigger] views(sec@)[m]),
        decreases n - k,
    {
        if !status_exec(sec[k].as_slice(), status) {
            assert(!is_status(views(sec@)[k as int]));
            return false;
        }
        k = k + 1;
    }
    true
}

fn kept_exec(sec: &Vec<Vec<char>>, status: &Vec<Vec<char>>) -> (out: Vec<Vec<char>>)
    requires
        views(status@) == status_lines(),
    ensures
        views(out@) == kept(views(sec@)),
{
    let n = sec.len();
    let mut out: Vec<Vec<char>> = Vec::new();
    let mut k: usize = 0;
    while k < n
        invariant
            n == sec@.len(),
            k <= n,
            views(status@) == status_lines(),
            views(out@) == kept(views(sec@).take(k as int)),
        decreases n - k,
    {
        assert(views(sec@).take(k + 1).drop_last() =~= views(sec@).take(k as int));
        let line = &sec[k];
        let rider = line.len() > 0 && (line[0] == '{' || line[0] == '(');
        if !rider && !status_exec(line.as_slice(), status) {
            let ghost before = out@;
            out.push(crate::text::copy_chars(line));
            assert(views(out@) =~= views(before).push(line@));
        }
        k = k + 1;
    }
    assert(views(sec@).take(n as int) =~= views(sec@));
    out
}

fn append_lines(out: &mut Vec<Vec<char>>, more: Vec<Vec<char>>)
    ensures
        views(final(out)@) == views(old(out)@) + views(more@),
{
    let n = more.len();
    let ghost start = views(out@);
    let mut k: usize = 0;
    while k < n
        invariant
            n == more@.len(),
            k <= n,
            views(out@) == start + views(more@).take(k as int),
        decreases n - k,
    {
        let ghost before = out@;
        out.push(crate::text::copy_chars(&more[k]));
        assert(views(out@) =~= views(before).push(more@[k as int]@));
        assert(views(more@).take(k + 1) =~= views(more@).take(k as int).push(more@[k as int]@));
        k = k + 1;
    }
    assert(views(more@).take(n as int) =~= views(more@));
}

fn affixes_exec(secs: &Vec<Vec<Vec<char>>>) -> (out: Vec<Vec<char>>)
    ensures
        views(out@) == affixes(sec_views(secs@)),
{
    let keys = block_keys_exec();
    let status = status_lines_exec();
    let n = secs.len();
    let mut out: Vec<Vec<char>> = Vec::new();
    let mut k: usize = 0;
    while k < n
        invariant
            n == secs@.len(),
            k <= n,
            views(keys@) == block_keys(),
            views(status@) == status_lines(),
            views(out@) == affixes(sec_views(secs@).take(k as int)),
        decreases n - k,
    {
        assert(sec_views(secs@).take(k + 1).drop_last() =~= sec_views(secs@).take(k as int));
        assert(sec_views(secs@)[k as int] == views(secs@[k as int]@));
        if !section_skipped(&secs[k], &keys, &status) {
            let more = kept_exec(&secs[k], &status);
            append_lines(&mut out, more);
        }
        k = k + 1;
    }
    assert(sec_views(secs@).take(n as int) =~= sec_views(secs@));
    out
}

fn flatten_exec(secs: &Vec<Vec<Vec<char>>>) -> (out: Vec<Vec<char>>)
    ensures
        views(out@) == flatten(sec_views(secs@)),
{
    let n = secs.len();
    let mut out: Vec<Vec<char>> = Vec::new();
    let mut k: usize = 0;
    while k < n
        invariant
            n == secs@.len(),
            k <= n,
            views(out@) == flatten(sec_views(secs@).take(k as int)),
        decreases n - k,
    {
        assert(sec_views(secs@).take(k + 1).drop_last() =~= sec_views(secs@).take(k as int));
        assert(sec_views(secs@)[k as int] == views(secs@[k as int]@));
        let more = crate::text::copy_lines(&secs[k]);
        append_lines(&mut out, more);
        k = k + 1;
    }
    assert(sec_views(secs@).take(n as int) =~= sec_views(secs@));
    out
}

fn last_keyed_exec(lines: &Vec<Vec<char>>, keys: &Vec<Vec<char>>) -> (r: Option<Vec<char>>)
    ensures
        match r {
            Some(v) => last_keyed_value(views(lines@), views(keys@)) == Some(v@),
            None => last_keyed_value(views(lines@), views(keys@)) is None,
        },
{
    let n = lines.len();
    let mut k = n;
    assert(views(lines@).take(n as int) =~= views(lines@));
    while k > 0
        invariant
            n == lines@.len(),
            k <= n,
            last_keyed_value(views(lines@), views(keys@)) == last_keyed_value(views(lines@).take(k as int), views(keys@)),
        decreases k,
    {
        assert(views(lines@).take(k as int).drop_last() =~= views(lines@).take(k - 1));
        assert(views(lines@).take(k as int).last() == lines@[k - 1]@);
        match keyed_value_exec(lines[k - 1].as_slice(), keys) {
            Some(v) => {
                return Some(v);
            },
            None => {},
        }
        k = k - 1;
    }
    None
}

fn corruption_exec(lines: &Vec<Vec<char>>) -> (b: bool)
    ensures
        b == marks_corruption(views(lines@)),
{
    let keys = corruption_keys_exec();
    let n = lines.len();
    let mut k: usize = 0;
    while k < n
        invariant
            n == lines@.len(),
            k <= n,
            views(keys@) == corruption_keys(),
            forall|m: int| 0 <= m < k ==> !starts_with_any(squeezed(#[trigger] views(lines@)[m]), corruption_keys()),
        decreases n - k,
    {
        let s = squeeze(lines[k].as_slice());
        if starts_with_any_exec(s.as_slice(), &keys) {
            assert(starts_with_any(squeezed(views(lines@)[k as int]), corruption_keys()));
            return true;
        }
        k = k + 1;
    }
    false
}

fn opt_string_of(o: Option<Vec<char>>) -> (r: Option<String>)
    ensures
        opt_view(r) == match o {
            Some(v) => Some(v@),
            None => None::<Seq<char>>,
        },
{
    match o {
        Some(v) => Some(string_of(v.as_slice())),
        None => None,
    }
}

/// Reads a clipboard payload as affix lines plus rarity, item level and
/// corruption. Refused when there is no dash separator, or no affix section.
pub fn parse(payload: &str) -> (r: Result<ParsedItem, ItemTextError>)
    ensures
        match r {
            Ok(item) => flat_parse(payload@) == Ok::<FlatItemView, ItemTextError>(item@),
            Err(e) => flat_parse(payload@) == Err::<FlatItemView, ItemTextError>(e),
        },
{
    let chars = chars_of(payload);
    let normalized = normalize_newlines_exec(chars.as_slice());
    let lines = split_lines(normalized.as_slice());
    if !any_separator(&lines) {
        return Err(ItemTextError::NotAnItem);
    }
    let secs = split_sections_exec(&lines);
    let found = affixes_exec(&secs);
    if found.len() == 0 {
        return Err(ItemTextError::NoAffixSection);
    }
    let all = flatten_exec(&secs);
    let rarity = last_keyed_exec(&all, &rarity_keys_exec());
    let level = last_keyed_exec(&all, &level_keys_exec());
    let corrupted = corruption_exec(&all);
    let item = ParsedItem {
        affix_lines: lines_to_strings(&found),
        rarity: opt_string_of(rarity),
        item_level: opt_string_of(level),
        corrupted,
    };
    assert(item@.affix_lines == affixes(split_sections(payload_lines(payload@))));
    Ok(item)
}

/// Cheap guard used before timing a sample: does this payload even look like
/// an item the client just wrote?
pub fn looks_like_item(payload: &str) -> (b: bool)
    ensures
        b == has_separator(lines_of(payload@)),
{
    let chars = chars_of(payload);
    let lines = split_lines(chars.as_slice());
    any_separator(&lines)
}

/// A section whose first line, squeezed (white space removed, lower-cased),
/// begins with a header key (item class, rarity), a metadata key
/// (requirements, sockets, item level, quality, defences, stack size) or a
/// trailer key (note, sale price), in the English or either Chinese
/// client's spelling, such as the `note:` of a price note, adds no affix
/// line wherever it stands among the sections.
pub proof fn keyed_blocks_add_no_affix_lines(
    before: Seq<Seq<Seq<char>>>,
    block: Seq<Seq<char>>,
    after: Seq<Seq<Seq<char>>>,
    key: Seq<char>,
)
    requires
        block.len() > 0,
        key == "itemclass:"@ || key == "rarity:"@ || key == "物品類別:"@ || key == "物品类别:"@ || key == "稀有度:"@ || key == "requirements:"@ || key == "sockets:"@ || key == "itemlevel:"@ || key == "quality:"@ || key == "armour:"@ || key == "evasionrating:"@ || key == "energyshield:"@ || key == "stacksize:"@ || key == "需求:"@ || key == "插槽:"@ || key == "物品等級:"@ || key == "物品等级:"@ || key == "品質:"@ || key == "品质:"@ || key == "護甲:"@ || key == "护甲:"@ || key == "閃避值:"@ || key == "闪避值:"@ || key == "能量護盾:"@ || key == "能量护盾:"@ || key == "堆疊數量:"@ || key == "堆叠数量:"@ || key == "note:"@ || key == "備註:"@ || key == "备注:"@ || key == "出售"@ || key == "sellprice"@,
        starts_with(squeezed(block[0]), key),
    ensures
        affixes(before + seq![block] + after) == affixes(before + after),
    decreases after.len(),
{
    assert(block_keys()[0] == "itemclass:"@);
    assert(block_keys()[1] == "rarity:"@);
    assert(block_keys()[2] == "物品類別:"@);
    assert(block_keys()[3] == "物品类别:"@);
    assert(block_keys()[4] == "稀有度:"@);
    assert(block_keys()[5] == "requirements:"@);
    assert(block_keys()[6] == "sockets:"@);
    assert(block_keys()[7] == "itemlevel:"@);
    assert(block_keys()[8] == "quality:"@);
    assert(block_keys()[9] == "armour:"@);
    assert(block_keys()[10] == "evasionrating:"@);
    assert(block_keys()[11] == "energyshield:"@);
    assert(block_keys()[12] == "stacksize:"@);
    assert(block_keys()[13] == "需求:"@);
    assert(block_keys()[14] == "插槽:"@);
    assert(block_keys()[15] == "物品等級:"@);
    assert(block_keys()[16] == "物品等级:"@);
    assert(block_keys()[17] == "品質:"@);
    assert(block_keys()[18] == "品质:"@);
    assert(block_keys()[19] == "護甲:"@);
    assert(block_keys()[20] == "护甲:"@);
    assert(block_keys()[21] == "閃避值:"@);
    assert(block_keys()[22] == "闪避值:"@);
    assert(block_keys()[23] == "能量護盾:"@);
    assert(block_keys()[24] == "能量护盾:"@);
    assert(block_keys()[25] == "堆疊數量:"@);
    assert(block_keys()[26] == "堆叠数量:"@);
    assert(block_keys()[27] == "note:"@);
    assert(block_keys()[28] == "備註:"@);
    assert(block_keys()[29] == "备注:"@);
    assert(block_keys()[30] == "出售"@);
    assert(block_keys()[31] == "sellprice"@);
    assert(block_keys().len() == 32);
    assert(skipped(block)) by {
        let i = choose|i: int| 0 <= i < 32 && block_keys()[i] == key;
        assert(starts_with(squeezed(block[0]), block_keys()[i]));
    }
    if after.len() == 0 {
        assert(before + seq![block] + after =~= before.push(block));
        assert(before + after =~= before);
        assert(before.push(block).drop_last() =~= before);
        assert(before.push(block).last() == block);
    } else {
        keyed_blocks_add_no_affix_lines(before, block, after.drop_last(), key);
        assert((before + seq![block] + after).drop_last() =~= before + seq![block] + after.drop_last());
        assert((before + after).drop_last() =~= before + after.drop_last());
        assert((before + seq![block] + after).last() == after.last());
        assert((before + after).last() == after.last());
    }
}

proof fn lemma_reads_rarity_keys(s: Seq<char>)
    ensures
        starts_with_any(s, rarity_keys()) <==> (starts_with(s, "rarity:"@) || starts_with(s, "稀有度:"@)),
{
    let keys = rarity_keys();
    assert(keys.len() == 2);
    assert(keys[0] == "rarity:"@);
    assert(keys[1] == "稀有度:"@);
    if starts_with_any(s, keys) {
        let i = choose|i: int| 0 <= i < keys.len() && starts_with(s, #[trigger] keys[i]);
        assert(i == 0 || i == 1);
    }
    if starts_with(s, "rarity:"@) {
        assert(starts_with(s, keys[0]));
    }
    if starts_with(s, "稀有度:"@) {
        assert(starts_with(s, keys[1]));
    }
}

proof fn lemma_reads_level_keys(s: Seq<char>)
    ensures
        starts_with_any(s, level_keys()) <==> (starts_with(s, "itemlevel:"@) || starts_with(s, "物品等級:"@) || starts_with(s, "物品等级:"@)),
{
    let keys = level_keys();
    assert(keys.len() == 3);
    assert(keys[0] == "itemlevel:"@);
    assert(keys[1] == "物品等級:"@);
    assert(keys[2] == "物品等级:"@);
    if starts_with_any(s, keys) {
        let i = choose|i: int| 0 <= i < keys.len() && starts_with(s, #[trigger] keys[i]);
        assert(i == 0 || i == 1 || i == 2);
    }
    if starts_with(s, "itemlevel:"@) {
        assert(starts_with(s, keys[0]));
    }
    if starts_with(s, "物品等級:"@) {
        assert(starts_with(s, keys[1]));
    }
    if starts_with(s, "物品等级:"@) {
        assert(starts_with(s, keys[2]));
    }
}

proof fn lemma_reads_corruption_keys(s: Seq<char>)
    ensures
        starts_with_any(s, corruption_keys()) <==> (starts_with(s, "corrupted"@) || starts_with(s, "已腐化"@)),
{
    let keys = corruption_keys();
    assert(keys.len() == 2);
    assert(keys[0] == "corrupted"@);
    assert(keys[1] == "已腐化"@);
    if starts_with_any(s, keys) {
        let i = choose|i: int| 0 <= i < keys.len() && starts_with(s, #[trigger] keys[i]);
        assert(i == 0 || i == 1);
    }
    if starts_with(s, "corrupted"@) {
        assert(starts_with(s, keys[0]));
    }
    if starts_with(s, "已腐化"@) {
        assert(starts_with(s, keys[1]));
    }
}

proof fn lemma_reads_status_lines(s: Seq<char>)
    ensures
        is_member(s, status_lines()) <==> (s == "corrupted"@ || s == "unidentified"@ || s == "mirrored"@ || s == "split"@ || s == "synthesiseditem"@ || s == "已腐化"@ || s == "未鑑定"@ || s == "未鉴定"@ || s == "已複製"@ || s == "已复制"@),
{
    let list = status_lines();
    assert(list.len() == 10);
    assert(list[0] == "corrupted"@);
    assert(list[1] == "unidentified"@);
    assert(list[2] == "mirrored"@);
    assert(list[3] == "split"@);
    assert(list[4] == "synthesiseditem"@);
    assert(list[5] == "已腐化"@);
    assert(list[6] == "未鑑定"@);
    assert(list[7] == "未鉴定"@);
    assert(list[8] == "已複製"@);
    assert(list[9] == "已复制"@);
    if is_member(s, list) {
        let i = choose|i: int| 0 <= i < list.len() && #[trigger] list[i] == s;
        assert(i == 0 || i == 1 || i == 2 || i == 3 || i == 4 || i == 5 || i == 6 || i == 7 || i == 8 || i == 9);
    }
    if s == "corrupted"@ {
        assert(list[0] == s);
    }
    if s == "unidentified"@ {
        assert(list[1] == s);
    }
    if s == "mirrored"@ {
        assert(list[2] == s);
    }
    if s == "split"@ {
        assert(list[3] == s);
    }
    if s == "synthesiseditem"@ {
        assert(list[4] == s);
    }
    if s == "已腐化"@ {
        assert(list[5] == s);
    }
    if s == "未鑑定"@ {
        assert(list[6] == s);
    }
    if s == "未鉴定"@ {
        assert(list[7] == s);
    }
    if s == "已複製"@ {
        assert(list[8] == s);
    }
    if s == "已复制"@ {
        assert(list[9] == s);
    }
}

/// A flat reading reports corruption exactly when some line of the dump,
/// squeezed (white space removed, lower-cased), begins with `corrupted` or
/// `已腐化`.
pub proof fn flat_corruption_read_from_any_line(payload: Seq<char>)
    ensures
        flat_parse(payload) matches Ok(v) ==> (v.corrupted <==> exists|k: int|
            0 <= k < flatten(split_sections(payload_lines(payload))).len() && ({
                let c = squeezed(#[trigger] flatten(split_sections(payload_lines(payload)))[k]);
                starts_with(c, "corrupted"@) || starts_with(c, "已腐化"@)
            })),
{
    let lines = flatten(split_sections(payload_lines(payload)));
    assert forall|k: int| 0 <= k < lines.len() implies (starts_with_any(squeezed(#[trigger] lines[k]), corruption_keys()) <==> ({
        let c = squeezed(lines[k]);
        starts_with(c, "corrupted"@) || starts_with(c, "已腐化"@)
    })) by {
        lemma_reads_corruption_keys(squeezed(lines[k]));
    }
}

/// A section made only of status lines (each, squeezed, one of the flags
/// such as `corrupted`, `unidentified`, `mirrored` or their Chinese
/// spellings) adds no affix line wherever it stands, and a status line
/// inside an affix section is dropped.
pub proof fn status_lines_add_no_affix_lines(
    before: Seq<Seq<Seq<char>>>,
    sec: Seq<Seq<char>>,
    after: Seq<Seq<Seq<char>>>,
    l: Seq<char>,
)
    ensures
        (forall|k: int| 0 <= k < sec.len() ==> ({
            let c = squeezed(#[trigger] sec[k]);
            c == "corrupted"@ || c == "unidentified"@ || c == "mirrored"@ || c == "split"@ || c == "synthesiseditem"@ || c == "已腐化"@ || c == "未鑑定"@ || c == "未鉴定"@ || c == "已複製"@ || c == "已复制"@
        })) ==> affixes(before + seq![sec] + after) == affixes(before + after),
        ({
            let c = squeezed(l);
            c == "corrupted"@ || c == "unidentified"@ || c == "mirrored"@ || c == "split"@ || c == "synthesiseditem"@ || c == "已腐化"@ || c == "未鑑定"@ || c == "未鉴定"@ || c == "已複製"@ || c == "已复制"@
        }) ==> kept(sec.push(l)) == kept(sec),
    decreases after.len(),
{
    lemma_reads_status_lines(squeezed(l));
    assert(sec.push(l).drop_last() =~= sec);
    assert(sec.push(l).last() == l);
    if forall|k: int| 0 <= k < sec.len() ==> ({
        let c = squeezed(#[trigger] sec[k]);
        c == "corrupted"@ || c == "unidentified"@ || c == "mirrored"@ || c == "split"@ || c == "synthesiseditem"@ || c == "已腐化"@ || c == "未鑑定"@ || c == "未鉴定"@ || c == "已複製"@ || c == "已复制"@
    }) {
        assert forall|k: int| 0 <= k < sec.len() implies is_status(#[trigger] sec[k]) by {
            lemma_reads_status_lines(squeezed(sec[k]));
        }
        assert(skipped(sec));
        if after.len() == 0 {
            assert(before + seq![sec] + after =~= before.push(sec));
            assert(before + after =~= before);
            assert(before.push(sec).drop_last() =~= before);
        } else {
            status_lines_add_no_affix_lines(before, sec, after.drop_last(), l);
            assert((before + seq![sec] + after).drop_last() =~= before + seq![sec] + after.drop_last());
            assert((before + after).drop_last() =~= before + after.drop_last());
            assert((before + seq![sec] + after).last() == after.last());
            assert((before + after).last() == after.last());
        }
    }
}

/// The rarity and item level of a flat reading come from the last line
/// naming them: a line whose squeezed form begins with the field's key (in
/// the English or a Chinese spelling) and which holds a colon sets the field
/// to the trimmed text after its first colon; a line naming none of the
/// field's keys leaves it as it was.
pub proof fn flat_fields_come_from_the_last_line_naming_them(lines: Seq<Seq<char>>, l: Seq<char>)
    ensures
        ({
            let c = squeezed(l);
            let value = Some(trim(l.skip(first_index(l, ':').unwrap() + 1)));
            &&& (starts_with(c, "rarity:"@) || starts_with(c, "稀有度:"@)) && first_index(l, ':') is Some ==> last_keyed_value(lines.push(l), rarity_keys()) == value
            &&& !(starts_with(c, "rarity:"@) || starts_with(c, "稀有度:"@)) ==> last_keyed_value(lines.push(l), rarity_keys()) == last_keyed_value(lines, rarity_keys())
            &&& (starts_with(c, "itemlevel:"@) || starts_with(c, "物品等級:"@) || starts_with(c, "物品等级:"@)) && first_index(l, ':') is Some ==> last_keyed_value(lines.push(l), level_keys()) == value
            &&& !(starts_with(c, "itemlevel:"@) || starts_with(c, "物品等級:"@) || starts_with(c, "物品等级:"@)) ==> last_keyed_value(lines.push(l), level_keys()) == last_keyed_value(lines, level_keys())
        }),
{
    lemma_reads_rarity_keys(squeezed(l));
    lemma_reads_level_keys(squeezed(l));
    assert(lines.push(l).drop_last() =~= lines);
    assert(lines.push(l).last() == l);
}

} // verus!
