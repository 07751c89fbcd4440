//! Choosing an installed recognizer language for the affix language a
//! profile asks for.
use vstd::prelude::*;

use crate::rules::{lemma_before_irreflexive, lemma_before_total, lemma_before_transitive, text_before, text_less};
use crate::text::{chars_of, ends_with, has_infix, has_prefix, has_suffix, contains, same_chars, starts_with, is_ws, is_whitespace, string_of};

verus! {

/// The recognizer language a profile wants.
#[derive(Clone, Debug, PartialEq, Eq)]
pub enum OcrLanguagePreference {
    English,
    TraditionalChinese,
    /// A language tag, compared without regard to ASCII case.
    Exact(String),
}

pub open spec fn ascii_lower_char(c: char) -> char {
    if 'A' <= c && c <= 'Z' {
        ((c as u32) + 32) as char
    } else {
        c
    }
}

pub open spec fn ascii_lowered(s: Seq<char>) -> Seq<char> {
    s.map_values(|c: char| ascii_lower_char(c))
}

/// How well an installed language tag serves a preference; `None` when it
/// does not serve it at all. Higher is better.
pub open spec fn score(preference: OcrLanguagePreference, tag: Seq<char>) -> Option<u8> {
    let t = ascii_lowered(tag);
    match preference {
        OcrLanguagePreference::English => if t == "en-us"@ {
            Some(100u8)
        } else if t == "en-gb"@ {
            Some(95u8)
        } else if t == "en"@ || starts_with(t, "en-"@) {
            Some(80u8)
        } else {
            None
        },
        OcrLanguagePreference::TraditionalChinese => if t == "zh-hant-tw"@ {
            Some(120u8)
        } else if t == "zh-tw"@ {
            Some(115u8)
        } else if t == "zh-hant-hk"@ {
            Some(110u8)
        } else if t == "zh-hk"@ {
            Some(105u8)
        } else if t == "zh-hant-mo"@ || t == "zh-mo"@ {
            Some(100u8)
        } else if starts_with(t, "zh-"@) && contains(t, "hant"@) {
            Some(90u8)
        } else if starts_with(t, "zh-"@) && (ends_with(t, "-tw"@) || ends_with(t, "-hk"@)
            || ends_with(t, "-mo"@)) {
            Some(80u8)
        } else {
            None
        },
        OcrLanguagePreference::Exact(expected) => if ascii_lowered(expected@) == t {
            Some(255u8)
        } else {
            None
        },
    }
}

/// Language tags are compared without regard to ASCII case. For English,
/// `en-US` is the best tag, scoring 100, and `en-GB` the next best; for
/// traditional Chinese, `zh-Hant-TW` is the best, scoring 120, and `zh-TW`
/// the next best; an exact preference is served, at 255, only by its own
/// tag. A tag outside the language serves no preference for it.
pub proof fn language_scores_prefer_the_regional_tags(tag: Seq<char>, other: String)
    ensures
        ascii_lowered(ascii_lowered(tag)) == ascii_lowered(tag),
        score(OcrLanguagePreference::English, ascii_lowered(tag)) == score(OcrLanguagePreference::English, tag),
        score(OcrLanguagePreference::TraditionalChinese, ascii_lowered(tag)) == score(
            OcrLanguagePreference::TraditionalChinese,
            tag,
        ),
        score(OcrLanguagePreference::English, tag) matches Some(v) ==> v <= 100,
        score(OcrLanguagePreference::English, tag) == Some(100u8) <==> ascii_lowered(tag) == "en-us"@,
        ascii_lowered(tag) == "en-gb"@ ==> score(OcrLanguagePreference::English, tag) == Some(95u8),
        ascii_lowered(tag) != "en-us"@ ==> (score(OcrLanguagePreference::English, tag) matches Some(v) ==> v <= 95),
        score(OcrLanguagePreference::TraditionalChinese, tag) matches Some(v) ==> v <= 120,
        score(OcrLanguagePreference::TraditionalChinese, tag) == Some(120u8) <==> ascii_lowered(tag) == "zh-hant-tw"@,
        ascii_lowered(tag) == "zh-tw"@ ==> score(OcrLanguagePreference::TraditionalChinese, tag) == Some(115u8),
        ascii_lowered(tag) != "zh-hant-tw"@ ==> (score(OcrLanguagePreference::TraditionalChinese, tag) matches Some(v)
            ==> v <= 115),
        score(OcrLanguagePreference::Exact(other), tag) is Some <==> ascii_lowered(other@) == ascii_lowered(tag),
{
    let t = ascii_lowered(tag);
    assert(ascii_lowered(t) =~= t);
    reveal_strlit("en-us");
    reveal_strlit("en-gb");
    reveal_strlit("zh-hant-tw");
    reveal_strlit("zh-tw");
    assert("en-gb"@[3] != "en-us"@[3]);
    assert("zh-tw"@.len() != "zh-hant-tw"@.len());
}

pub(crate) fn lower_ascii(s: &[char]) -> (out: Vec<char>)
    ensures
        out@ == ascii_lowered(s@),
{
    let n = s.len();
    let mut out: Vec<char> = Vec::new();
    let mut i: usize = 0;
    while i < n
        invariant
            n == s@.len(),
            i <= n,
            out@ == ascii_lowered(s@.take(i as int)),
        decreases n - i,
    {
        let c = s[i];
        let l = if 'A' <= c && c <= 'Z' {
            ((c as u32 + 32) as u8) as char
        } else {
            c
        };
        out.push(l);
        assert(ascii_lowered(s@.take(i + 1)) =~= ascii_lowered(s@.take(i as int)).push(l));
        i = i + 1;
    }
    assert(s@.take(n as int) =~= s@);
    out
}

fn is(t: &Vec<char>, literal: &str) -> (b: bool)
    ensures
        b == (t@ == literal@),
{
    let l = chars_of(literal);
    same_chars(t.as_slice(), l.as_slice())
}

fn begins(t: &Vec<char>, literal: &str) -> (b: bool)
    ensures
        b == starts_with(t@, literal@),
{
    let l = chars_of(literal);
    has_prefix(t.as_slice(), l.as_slice())
}

fn finishes(t: &Vec<char>, literal: &str) -> (b: bool)
    ensures
        b == ends_with(t@, literal@),
{
    let l = chars_of(literal);
    has_suffix(t.as_slice(), l.as_slice())
}

fn holds(t: &Vec<char>, literal: &str) -> (b: bool)
    ensures
        b == contains(t@, literal@),
{
    let l = chars_of(literal);
    has_infix(t.as_slice(), l.as_slice())
}

/// How well an installed language tag serves a preference; `None` when it
/// does not serve it at all.
pub fn language_score(preference: &OcrLanguagePreference, tag: &str) -> (r: Option<u8>)
    ensures
        r == score(*preference, tag@),
{
    let raw = chars_of(tag);
    let t = lower_ascii(raw.as_slice());
    match preference {
        OcrLanguagePreference::English => {
            if is(&t, "en-us") {
                Some(100)
            } else if is(&t, "en-gb") {
                Some(95)
            } else if is(&t, "en") || begins(&t, "en-") {
                Some(80)
            } else {
                None
            }
        },
        OcrLanguagePreference::TraditionalChinese => {
            if is(&t, "zh-hant-tw") {
                Some(120)
            } else if is(&t, "zh-tw") {
                Some(115)
            } else if is(&t, "zh-hant-hk") {
                Some(110)
            } else if is(&t, "zh-hk") {
                Some(105)
            } else if is(&t, "zh-hant-mo") || is(&t, "zh-mo") {
                Some(100)
            } else if begins(&t, "zh-") && holds(&t, "hant") {
                Some(90)
            } else if begins(&t, "zh-") && (finishes(&t, "-tw") || finishes(&t, "-hk") || finishes(
                &t,
                "-mo",
            )) {
                Some(80)
            } else {
                None
            }
        },
        OcrLanguagePreference::Exact(expected) => {
            let e = chars_of(expected.as_str());
            let e = lower_ascii(e.as_slice());
            if same_chars(e.as_slice(), t.as_slice()) {
                Some(255)
            } else {
                None
            }
        },
    }
}

/// The nearest character before position `i` that is not white space.
pub open spec fn visible_before(s: Seq<char>, i: int) -> Option<char>
    decreases i,
{
    if i <= 0 {
        None
    } else if !is_ws(s[i - 1]) {
        Some(s[i - 1])
    } else {
        visible_before(s, i - 1)
    }
}

/// The nearest character after position `i` that is not white space.
pub open spec fn visible_after(s: Seq<char>, i: int) -> Option<char>
    decreases s.len() - i,
{
    if i + 1 >= s.len() {
        None
    } else if !is_ws(s[i + 1]) {
        Some(s[i + 1])
    } else {
        visible_after(s, i + 1)
    }
}

pub open spec fn is_ascii_digit(c: Option<char>) -> bool {
    match c {
        Some(d) => '0' <= d && d <= '9',
        None => false,
    }
}

/// Character `i` as the recognizer's text should read it: the ideograph
/// `一` between two digits (white space aside) is a dash.
pub open spec fn dash_normalized(s: Seq<char>, i: int) -> char {
    if s[i] == '\u{4e00}' && is_ascii_digit(visible_before(s, i)) && is_ascii_digit(visible_after(s, i)) {
        '-'
    } else {
        s[i]
    }
}

fn visible_before_exec(s: &[char], i: usize) -> (r: Option<char>)
    requires
        i <= s@.len(),
    ensures
        r == visible_before(s@, i as int),
{
    let mut k = i;
    while k > 0
        invariant
            k <= i <= s@.len(),
            visible_before(s@, i as int) == visible_before(s@, k as int),
        decreases k,
    {
        if !is_whitespace(s[k - 1]) {
            return Some(s[k - 1]);
        }
        k = k - 1;
    }
    None
}

fn visible_after_exec(s: &[char], i: usize) -> (r: Option<char>)
    requires
        i < s@.len(),
    ensures
        r == visible_after(s@, i as int),
{
    let mut k = i;
    while k < s.len() - 1
        invariant
            i <= k < s@.len(),
            visible_after(s@, i as int) == visible_after(s@, k as int),
        decreases s@.len() - k,
    {
        if !is_whitespace(s[k + 1]) {
            return Some(s[k + 1]);
        }
        k = k + 1;
    }
    None
}

/// Reads the ideograph `一` as a dash wherever it stands between two digits,
/// white space aside, as recognizers confuse the two in ranges.
pub fn normalize_chinese_numeric_dash(text: &str) -> (out: String)
    ensures
        out@.len() == text@.len(),
        forall|i: int| 0 <= i < text@.len() ==> out@[i] == dash_normalized(text@, i),
{
    let chars = chars_of(text);
    let n = chars.len();
    let mut result: Vec<char> = Vec::new();
    let mut i: usize = 0;
    while i < n
        invariant
            n == chars@.len(),
            chars@ == text@,
            i <= n,
            result@.len() == i,
            forall|k: int| 0 <= k < i ==> result@[k] == dash_normalized(text@, k),
        decreases n - i,
    {
        let c = chars[i];
        let mut shown = c;
        if c == '\u{4e00}' {
            let before = visible_before_exec(chars.as_slice(), i);
            let after = visible_after_exec(chars.as_slice(), i);
            let digit_before = match before {
                Some(d) => '0' <= d && d <= '9',
                None => false,
            };
            let digit_after = match after {
                Some(d) => '0' <= d && d <= '9',
                None => false,
            };
            if digit_before && digit_after {
                shown = '-';
            }
        }
        result.push(shown);
        i = i + 1;
    }
    string_of(result.as_slice())
}

/// Candidate `j` would win over candidate `i`: a higher score, or the same
/// score and an earlier tag.
pub open spec fn outranks(preference: OcrLanguagePreference, tags: Seq<Seq<char>>, j: int, i: int) -> bool {
    let sj = score(preference, tags[j]);
    let si = score(preference, tags[i]);
    sj is Some && si is Some && (sj.unwrap() > si.unwrap() || (sj.unwrap() == si.unwrap() && text_before(
        tags[j],
        tags[i],
    )))
}

/// Picks the installed recognizer language to use: the best-scoring tag,
/// the earliest tag among equals, the last of identical ones; `None` when
/// no tag serves the preference.
pub fn select_language(preference: &OcrLanguagePreference, tags: &[String]) -> (r: Option<usize>)
    ensures
        match r {
            None => forall|j: int| 0 <= j < tags@.len() ==> score(*preference, #[trigger] tags@[j]@) is None,
            Some(i) => {
                &&& i < tags@.len()
                &&& score(*preference, tags@[i as int]@) is Some
                &&& forall|j: int| 0 <= j < tags@.len() ==> !outranks(*preference, tag_views(tags@), j, i as int)
                &&& forall|j: int|
                    i < j < tags@.len() && score(*preference, tags@[j]@) == score(*preference, tags@[i as int]@) ==> tags@[j]@
                        != tags@[i as int]@
            },
        },
{
    let ghost views = tag_views(tags@);
    let n = tags.len();
    let mut best: Option<(usize, u8)> = None;
    let mut i: usize = 0;
    while i < n
        invariant
            n == tags@.len(),
            i <= n,
            views == tag_views(tags@),
            match best {
                None => forall|j: int| 0 <= j < i ==> score(*preference, #[trigger] tags@[j]@) is None,
                Some((b, sb)) => {
                    &&& b < i
                    &&& score(*preference, tags@[b as int]@) == Some(sb)
                    &&& forall|j: int| 0 <= j < i ==> !outranks(*preference, views, j, b as int)
                    &&& forall|j: int|
                        b < j < i && score(*preference, tags@[j]@) == Some(sb) ==> tags@[j]@ != tags@[b as int]@
                },
            },
        decreases n - i,
    {
        assert(views[i as int] == tags@[i as int]@);
        match language_score(preference, tags[i].as_str()) {
            None => {},
            Some(s) => {
                let take = match best {
                    None => true,
                    Some((b, sb)) => {
                        let here = chars_of(tags[i].as_str());
                        let there = chars_of(tags[b].as_str());
                        s > sb || (s == sb && !text_less(there.as_slice(), here.as_slice()))
                    },
                };
                proof {
                    lemma_before_irreflexive(views[i as int]);
                }
                if take {
                    proof {
                        if let Some((b, sb)) = best {
                            assert forall|j: int| 0 <= j < i implies !outranks(*preference, views, j, i as int) by {
                                assert(!outranks(*preference, views, j, b as int));
                                if outranks(*preference, views, j, i as int) && s == sb {
                                    if views[i as int] != views[b as int] {
                                        lemma_before_total(views[i as int], views[b as int]);
                                        lemma_before_transitive(views[j], views[i as int], views[b as int]);
                                    }
                                }
                            }
                        }
                    }
                    best = Some((i, s));
                } else {
                    proof {
                        if let Some((b, sb)) = best {
                            if s == sb {
                                if text_before(views[i as int], views[b as int]) {
                                    lemma_before_transitive(views[b as int], views[i as int], views[b as int]);
                                    lemma_before_irreflexive(views[b as int]);
                                }
                                assert(views[i as int] != views[b as int]);
                            }
                        }
                    }
                }
            },
        }
        i = i + 1;
    }
    match best {
        None => None,
        Some((b, _)) => Some(b),
    }
}

pub open spec fn tag_views(v: Seq<String>) -> Seq<Seq<char>> {
    v.map_values(|t: String| t@)
}

} // verus!
