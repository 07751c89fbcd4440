//! Full-line affix matching.
//!
//! A template such as `#% increased Attack Speed` and a line read from an item
//! are both folded to a canonical token sequence: words, and numeric slots that
//! keep only what a rule may rely on (whether a `%` follows, and which signs a
//! value may carry). Presentation (width, case, dashes, spacing, a trailing
//! annotation such as ` — Unscalable Value`, a displayed tier range) never
//! reaches the tokens; meaning (every word, every slot, units, signs) always
//! does.
use vstd::prelude::*;

use crate::decimal::{parse_decimal, Decimal};
use crate::text::{
    chars_of, string_views, is_ascii_digit_spec, is_ws, is_whitespace, lines_of, split_lines, string_of, trim,
    trim_chars, views,
};

verus! {

/// Number of physical lines a wrapped modifier may occupy by default.
pub const DEFAULT_MAXIMUM_PHYSICAL_LINE_SPAN: usize = 3;

/// The largest line span a matcher supports.
pub const MAXIMUM_SUPPORTED_PHYSICAL_LINE_SPAN: usize = 8;

// ---------------------------------------------------------------------------
// Character folding and annotation tails
// ---------------------------------------------------------------------------

pub open spec fn is_ascii_upper(c: char) -> bool {
    'A' <= c && c <= 'Z'
}

/// Presentation-only folding of one character: full-width forms to ASCII,
/// dash and quote variants to `-` and `'`, a middle dot to a decimal point,
/// and ASCII upper case to lower case.
pub open spec fn fold_char(c: char) -> char {
    let u = c as u32;
    if 0xFF01 <= u && u <= 0xFF5E {
        let a = (u - 0xFEE0) as u8;
        if 0x41 <= a && a <= 0x5A {
            (a + 32) as u8 as char
        } else {
            a as char
        }
    } else if u == 0x3000 {
        ' '
    } else if (0x2010 <= u && u <= 0x2015) || u == 0x2212 || u == 0xFE58 || u == 0xFE63 {
        '-'
    } else if u == 0x2018 || u == 0x2019 || u == 0x02BC {
        '\''
    } else if u == 0xB7 {
        '.'
    } else if is_ascii_upper(c) {
        ((u + 32) as u8) as char
    } else {
        c
    }
}

pub fn fold_one(c: char) -> (r: char)
    ensures
        r == fold_char(c),
{
    let u = c as u32;
    if 0xFF01 <= u && u <= 0xFF5E {
        let a = (u - 0xFEE0) as u8;
        if 0x41 <= a && a <= 0x5A {
            (a + 32) as char
        } else {
            a as char
        }
    } else if u == 0x3000 {
        ' '
    } else if (0x2010 <= u && u <= 0x2015) || u == 0x2212 || u == 0xFE58 || u == 0xFE63 {
        '-'
    } else if u == 0x2018 || u == 0x2019 || u == 0x02BC {
        '\''
    } else if u == 0xB7 {
        '.'
    } else if 'A' <= c && c <= 'Z' {
        ((u + 32) as u8) as char
    } else {
        c
    }
}

pub open spec fn fold(s: Seq<char>) -> Seq<char> {
    s.map_values(|c: char| fold_char(c))
}

fn fold_chars(s: &[char]) -> (out: Vec<char>)
    ensures
        out@ == fold(s@),
{
    let n = s.len();
    let mut out: Vec<char> = Vec::new();
    let mut i: usize = 0;
    while i < n
        invariant
            n == s@.len(),
            i <= n,
            out@ == fold(s@.take(i as int)),
        decreases n - i,
    {
        out.push(fold_one(s[i]));
        assert(fold(s@.take(i + 1)) =~= fold(s@.take(i as int)).push(fold_char(s@[i as int])));
        i = i + 1;
    }
    assert(s@.take(n as int) =~= s@);
    out
}

/// A character that carries a number: a digit, or the `#` placeholder.
pub open spec fn is_numeral(c: char) -> bool {
    is_ascii_digit_spec(c) || c == '#'
}

/// No digit and no placeholder at or after `k`.
pub open spec fn numeral_free_from(s: Seq<char>, k: int) -> bool {
    forall|j: int| k <= j < s.len() ==> !is_numeral(#[trigger] s[j])
}

/// A dash standing alone between spaces with nothing numeric after it opens an
/// annotation the client appended to the line, not modifier text.
pub open spec fn is_tail_dash(s: Seq<char>, p: int) -> bool {
    &&& 0 < p < s.len()
    &&& s[p] == '-'
    &&& is_ws(s[p - 1])
    &&& (p + 1 == s.len() || is_ws(s[p + 1]))
    &&& numeral_free_from(s, p + 1)
}

/// Where the annotation tail starts at or after `p` (the length when there is none).
pub open spec fn tail_from(s: Seq<char>, p: int) -> int
    decreases s.len() - p,
{
    if p >= s.len() {
        s.len() as int
    } else if is_tail_dash(s, p) {
        p
    } else {
        tail_from(s, p + 1)
    }
}

pub open spec fn tail_start(s: Seq<char>) -> int {
    tail_from(s, 0)
}

/// One physical line as the matcher reads it: folded, without an annotation
/// tail, without surrounding white space.
pub open spec fn clean_line(l: Seq<char>) -> Seq<char> {
    trim(fold(l).take(tail_start(fold(l))))
}

proof fn lemma_tail_from_bounds(s: Seq<char>, p: int)
    requires
        0 <= p <= s.len(),
    ensures
        p <= tail_from(s, p) <= s.len(),
    decreases s.len() - p,
{
    if p < s.len() && !is_tail_dash(s, p) {
        lemma_tail_from_bounds(s, p + 1);
    }
}

/// Index of the last digit or placeholder, plus one (zero when there is none).
fn numeral_bound(s: &[char]) -> (b: usize)
    ensures
        b <= s@.len(),
        numeral_free_from(s@, b as int),
        b > 0 ==> is_numeral(s@[b - 1]),
{
    let mut b = s.len();
    while b > 0
        invariant
            b <= s@.len(),
            numeral_free_from(s@, b as int),
        decreases b,
    {
        let c = s[b - 1];
        if ('0' <= c && c <= '9') || c == '#' {
            return b;
        }
        b = b - 1;
    }
    b
}

/// Start of the annotation tail of a folded line.
fn tail_index(s: &[char]) -> (t: usize)
    ensures
        t as int == tail_start(s@),
        t <= s@.len(),
{
    let n = s.len();
    let bound = numeral_bound(s);
    let mut p: usize = 0;
    while p < n
        invariant
            n == s@.len(),
            p <= n,
            bound <= n,
            numeral_free_from(s@, bound as int),
            bound > 0 ==> is_numeral(s@[bound - 1]),
            tail_from(s@, 0) == tail_from(s@, p as int),
        decreases n - p,
    {
        let dash = 0 < p && s[p] == '-' && is_whitespace(s[p - 1]) && (p + 1 == n
            || is_whitespace(s[p + 1])) && p >= bound;
        proof {
            if p >= bound {
                assert forall|j: int| p + 1 <= j < s@.len() implies !is_numeral(#[trigger] s@[j]) by {}
            } else if p + 1 < bound {
                assert(is_numeral(s@[bound - 1]));
                assert(!numeral_free_from(s@, p + 1));
            } else {
                assert(is_numeral(s@[p as int]));
            }
            assert(dash == is_tail_dash(s@, p as int));
        }
        if dash {
            return p;
        }
        p = p + 1;
    }
    p
}

/// `clean_line` of one physical line.
pub fn clean_line_chars(l: &[char]) -> (out: Vec<char>)
    ensures
        out@ == clean_line(l@),
{
    let folded = fold_chars(l);
    let t = tail_index(folded.as_slice());
    let kept = crate::text::slice_vec(folded.as_slice(), 0, t);
    assert(kept@ =~= fold(l@).take(tail_start(fold(l@))));
    trim_chars(kept.as_slice())
}

/// Physical lines read as one modifier: each line cleaned, joined by a space.
pub open spec fn joined(lines: Seq<Seq<char>>) -> Seq<char>
    decreases lines.len(),
{
    if lines.len() == 0 {
        Seq::empty()
    } else if lines.len() == 1 {
        clean_line(lines[0])
    } else {
        joined(lines.drop_last()) + seq![' '] + clean_line(lines.last())
    }
}

/// `joined` of `lines[from..to]`.
pub fn join_lines(lines: &[Vec<char>], from: usize, to: usize) -> (out: Vec<char>)
    requires
        from <= to <= lines@.len(),
    ensures
        out@ == joined(views(lines@).subrange(from as int, to as int)),
{
    let mut out: Vec<char> = Vec::new();
    let mut i = from;
    assert(views(lines@).subrange(from as int, from as int) =~= Seq::<Seq<char>>::empty());
    while i < to
        invariant
            from <= i <= to <= lines@.len(),
            out@ == joined(views(lines@).subrange(from as int, i as int)),
        decreases to - i,
    {
        let c = clean_line_chars(lines[i].as_slice());
        let ghost before = views(lines@).subrange(from as int, i as int);
        let ghost after = views(lines@).subrange(from as int, i + 1);
        assert(after.drop_last() =~= before);
        assert(after.last() == lines@[i as int]@);
        if i > from {
            out.push(' ');
        }
        let ghost mid = out@;
        let mut k: usize = 0;
        while k < c.len()
            invariant
                k <= c@.len(),
                out@ == mid + c@.take(k as int),
            decreases c@.len() - k,
        {
            out.push(c[k]);
            assert(c@.take(k + 1) =~= c@.take(k as int).push(c@[k as int]));
            k = k + 1;
        }
        assert(c@.take(c@.len() as int) =~= c@);
        proof {
            if i == from {
                assert(after.len() == 1);
                assert(out@ =~= joined(after));
            } else {
                assert(out@ =~= joined(after));
            }
        }
        i = i + 1;
    }
    out
}

// ---------------------------------------------------------------------------
// Tokens
// ---------------------------------------------------------------------------

/// Which signs a numeric slot admits (in a template) or carries (in a line).
#[derive(Clone, Copy, Debug, PartialEq, Eq, Structural, Hash)]
pub enum SlotSign {
    NonNegative,
    Negative,
    /// A range from a negative to a non-negative bound: either sign.
    Either,
}

/// What a canonical token is.
#[derive(Clone, Copy, Debug, PartialEq, Eq, Structural, Hash)]
pub enum AffixTokenKind {
    Word,
    Number(SlotSign),
    Percent(SlotSign),
}

impl AffixTokenKind {
    /// True for a word, false for a numeric slot.
    pub fn is_word(&self) -> (b: bool)
        ensures
            b == (*self is Word),
    {
        match self {
            AffixTokenKind::Word => true,
            _ => false,
        }
    }
}

/// One canonical token: a word with its folded text, or a numeric slot (whose
/// text is empty: the value is not part of the shape).
#[derive(Clone, Debug, PartialEq, Eq)]
pub struct AffixToken {
    pub kind: AffixTokenKind,
    pub text: Vec<char>,
}

impl View for AffixToken {
    type V = (AffixTokenKind, Seq<char>);

    open spec fn view(&self) -> (AffixTokenKind, Seq<char>) {
        (self.kind, self.text@)
    }
}

/// A token as the lexer sees it, with the value a slot displays (in units).
pub type Lexeme = (AffixTokenKind, Seq<char>, Option<int>);

pub open spec fn is_letter(c: char) -> bool {
    ('a' <= c && c <= 'z') || ('A' <= c && c <= 'Z')
}

pub open spec fn is_digit(c: char) -> bool {
    is_ascii_digit_spec(c)
}

pub open spec fn skip_ws(s: Seq<char>, j: int) -> int
    decreases s.len() - j,
{
    if 0 <= j < s.len() && is_ws(s[j]) {
        skip_ws(s, j + 1)
    } else {
        j
    }
}

pub open spec fn digits_end(s: Seq<char>, j: int) -> int
    decreases s.len() - j,
{
    if 0 <= j < s.len() && is_digit(s[j]) {
        digits_end(s, j + 1)
    } else {
        j
    }
}

/// The first fraction digit after the digits at `i`, when a decimal point
/// (white space allowed around it) and a digit follow them.
pub open spec fn fraction_start(s: Seq<char>, i: int) -> Option<int> {
    let p = skip_ws(s, digits_end(s, i));
    if p < s.len() && s[p] == '.' && skip_ws(s, p + 1) < s.len() && is_digit(
        s[skip_ws(s, p + 1)],
    ) {
        Some(skip_ws(s, p + 1))
    } else {
        None
    }
}

/// End of the unsigned number whose first digit is at `i`.
pub open spec fn number_end(s: Seq<char>, i: int) -> int {
    match fraction_start(s, i) {
        Some(k) => digits_end(s, k),
        None => digits_end(s, i),
    }
}

/// The number at `i` written compactly: digits, and a point and digits.
pub open spec fn number_text(s: Seq<char>, i: int) -> Seq<char> {
    match fraction_start(s, i) {
        Some(k) => s.subrange(i, digits_end(s, i)) + seq!['.'] + s.subrange(k, digits_end(s, k)),
        None => s.subrange(i, digits_end(s, i)),
    }
}

/// A number at `j` with an optional minus sign written against it: whether it
/// is negative, and where its digits start.
pub open spec fn signed_start(s: Seq<char>, j: int) -> Option<(bool, int)> {
    if 0 <= j < s.len() && is_digit(s[j]) {
        Some((false, j))
    } else if 0 <= j && j + 1 < s.len() && s[j] == '-' && is_digit(s[j + 1]) {
        Some((true, j + 1))
    } else {
        None
    }
}

pub open spec fn signed_end(s: Seq<char>, j: int) -> int {
    number_end(s, signed_start(s, j).unwrap().1)
}

pub open spec fn is_zero_text(t: Seq<char>) -> bool {
    forall|k: int| 0 <= k < t.len() ==> (#[trigger] t[k] == '0' || t[k] == '.')
}

/// The signed number at `j` is below zero.
pub open spec fn below_zero(s: Seq<char>, j: int) -> bool {
    match signed_start(s, j) {
        Some((negative, d)) => negative && !is_zero_text(number_text(s, d)),
        None => false,
    }
}

/// A parenthesised range `(lo-hi)` at `j`: where it ends and where `hi` starts.
pub open spec fn paren_range(s: Seq<char>, j: int) -> Option<(int, int)> {
    if 0 <= j < s.len() && s[j] == '(' && signed_start(s, j + 1) is Some {
        let e1 = signed_end(s, j + 1);
        if e1 < s.len() && s[e1] == '-' && signed_start(s, e1 + 1) is Some {
            let e2 = signed_end(s, e1 + 1);
            if e2 < s.len() && s[e2] == ')' {
                Some((e2 + 1, e1 + 1))
            } else {
                None
            }
        } else {
            None
        }
    } else {
        None
    }
}

/// End of the parenthesis written right after a displayed roll (a fixed
/// value `(3)` or a tier range `(4-5)`), or `e` when there is none.
pub open spec fn meta_end(s: Seq<char>, e: int) -> int {
    if 0 <= e < s.len() && s[e] == '(' && signed_start(s, e + 1) is Some {
        let e1 = signed_end(s, e + 1);
        if e1 < s.len() && s[e1] == ')' {
            e1 + 1
        } else if e1 < s.len() && s[e1] == '-' && signed_start(s, e1 + 1) is Some && signed_end(
            s,
            e1 + 1,
        ) < s.len() && s[signed_end(s, e1 + 1)] == ')' {
            signed_end(s, e1 + 1) + 1
        } else {
            e
        }
    } else {
        e
    }
}

pub open spec fn plain_sign(minus: bool) -> SlotSign {
    if minus {
        SlotSign::Negative
    } else {
        SlotSign::NonNegative
    }
}

/// Signs a range admits: a leading minus makes it negative; a negative lower
/// bound with a non-negative upper bound admits either sign.
pub open spec fn range_sign(minus: bool, low_below: bool, high_below: bool) -> SlotSign {
    if minus {
        SlotSign::Negative
    } else if low_below && !high_below {
        SlotSign::Either
    } else if high_below {
        SlotSign::Negative
    } else {
        SlotSign::NonNegative
    }
}

/// The value a displayed roll shows, in units, when it is a decimal a
/// `Decimal` holds.
pub open spec fn roll_value(minus: bool, t: Seq<char>) -> Option<int> {
    match parse_decimal(
        if minus {
            seq!['-'] + t
        } else {
            t
        },
    ) {
        Ok(v) => Some(v),
        Err(_) => None,
    }
}

pub open spec fn core_start(s: Seq<char>, i: int) -> int {
    if 0 <= i < s.len() && (s[i] == '+' || s[i] == '-') {
        skip_ws(s, i + 1)
    } else {
        i
    }
}

pub open spec fn minus_at(s: Seq<char>, i: int) -> bool {
    0 <= i < s.len() && s[i] == '-'
}

/// A numeric slot at `i` without its unit: where it ends, which signs it
/// admits, and the value it displays. A slot is an optional sign followed by
/// `#`, a parenthesised range, a hyphen range, or a number with an optional
/// parenthesis of metadata.
pub open spec fn slot_core(s: Seq<char>, i: int) -> Option<(int, SlotSign, Option<int>)> {
    let j = core_start(s, i);
    let minus = minus_at(s, i);
    if !(0 <= j < s.len()) {
        None
    } else if s[j] == '#' {
        Some((j + 1, plain_sign(minus), None))
    } else if paren_range(s, j) is Some {
        let (e, h) = paren_range(s, j).unwrap();
        Some((e, range_sign(minus, below_zero(s, j + 1), below_zero(s, h)), None))
    } else if is_digit(s[j]) {
        let e1 = number_end(s, j);
        if e1 < s.len() && s[e1] == '-' && signed_start(s, e1 + 1) is Some {
            Some(
                (
                    signed_end(s, e1 + 1),
                    range_sign(
                        false,
                        minus && !is_zero_text(number_text(s, j)),
                        below_zero(s, e1 + 1),
                    ),
                    None,
                ),
            )
        } else {
            Some((meta_end(s, e1), plain_sign(minus), roll_value(minus, number_text(s, j))))
        }
    } else {
        None
    }
}

/// A numeric slot at `i`, with a `%` after it (white space allowed) making it
/// a percentage.
pub open spec fn slot_at(s: Seq<char>, i: int) -> Option<(int, AffixTokenKind, Option<int>)> {
    match slot_core(s, i) {
        None => None,
        Some((e, sign, v)) => {
            let p = skip_ws(s, e);
            if p < s.len() && s[p] == '%' {
                Some((p + 1, AffixTokenKind::Percent(sign), v))
            } else {
                Some((e, AffixTokenKind::Number(sign), v))
            }
        },
    }
}

/// A character of an ASCII word: a letter, an apostrophe, or a digit standing
/// between two letters (a glyph a reader took for `i`, `l` or `o`).
pub open spec fn word_char_at(s: Seq<char>, j: int) -> bool {
    0 <= j < s.len() && (is_letter(s[j]) || s[j] == '\'' || (is_digit(s[j]) && j > 0 && is_letter(
        s[j - 1],
    ) && j + 1 < s.len() && is_letter(s[j + 1])))
}

/// A hyphen inside a word; it joins the word and is not part of it.
pub open spec fn joiner_at(s: Seq<char>, j: int) -> bool {
    0 < j && j + 1 < s.len() && s[j] == '-' && is_letter(s[j - 1]) && is_letter(s[j + 1])
}

pub open spec fn word_end(s: Seq<char>, j: int) -> int
    decreases s.len() - j,
{
    if 0 <= j < s.len() && (word_char_at(s, j) || joiner_at(s, j)) {
        word_end(s, j + 1)
    } else {
        j
    }
}

pub open spec fn word_text(s: Seq<char>, j: int) -> Seq<char>
    decreases s.len() - j,
{
    if 0 <= j < s.len() && word_char_at(s, j) {
        seq![s[j]] + word_text(s, j + 1)
    } else if 0 <= j < s.len() && joiner_at(s, j) {
        word_text(s, j + 1)
    } else {
        Seq::empty()
    }
}

/// Punctuation outside ASCII: Latin-1 signs, general and CJK punctuation,
/// and the remaining full-width and half-width forms.
pub open spec fn is_mark(c: char) -> bool {
    let u = c as u32;
    (0x80 <= u && u <= 0xBF) || (0x2000 <= u && u <= 0x206F) || (0x3000 <= u && u <= 0x303F) || (
    0xFE30 <= u && u <= 0xFE4F) || (0xFF00 <= u && u <= 0xFFEF)
}

/// A character outside ASCII that is a token of its own (a CJK ideograph, say).
pub open spec fn is_glyph(c: char) -> bool {
    (c as u32) >= 0x80 && !is_ws(c) && !is_mark(c)
}

/// What the lexer reads at `i`, and where it continues.
pub open spec fn step_at(s: Seq<char>, i: int) -> (Option<Lexeme>, int) {
    if is_ws(s[i]) {
        (None, i + 1)
    } else {
        match slot_at(s, i) {
            Some((e, k, v)) => (Some((k, Seq::empty(), v)), e),
            None => {
                if word_char_at(s, i) {
                    (Some((AffixTokenKind::Word, word_text(s, i), None)), word_end(s, i))
                } else if is_glyph(s[i]) {
                    (Some((AffixTokenKind::Word, seq![s[i]], None)), i + 1)
                } else {
                    (None, i + 1)
                }
            },
        }
    }
}

pub open spec fn lex_from(s: Seq<char>, i: int) -> Seq<Lexeme>
    decreases s.len() - i,
{
    if i < 0 || i >= s.len() {
        Seq::empty()
    } else {
        let (t, e) = step_at(s, i);
        let next = if i < e <= s.len() {
            e
        } else {
            i + 1
        };
        match t {
            Some(x) => seq![x] + lex_from(s, next),
            None => lex_from(s, next),
        }
    }
}

/// The canonical tokens of a cleaned text, with slot values.
pub open spec fn lex(s: Seq<char>) -> Seq<Lexeme> {
    lex_from(s, 0)
}

pub open spec fn token_views(l: Seq<Lexeme>) -> Seq<(AffixTokenKind, Seq<char>)> {
    l.map_values(|x: Lexeme| (x.0, x.1))
}

/// The values of the slots, in order.
pub open spec fn slot_values(l: Seq<Lexeme>) -> Seq<Option<int>>
    decreases l.len(),
{
    if l.len() == 0 {
        Seq::empty()
    } else if l.last().0 is Word {
        slot_values(l.drop_last())
    } else {
        slot_values(l.drop_last()).push(l.last().2)
    }
}

// ---------------------------------------------------------------------------
// The lexer
// ---------------------------------------------------------------------------

fn skip_ws_at(s: &[char], j: usize) -> (r: usize)
    requires
        j <= s@.len(),
    ensures
        r as int == skip_ws(s@, j as int),
        j <= r <= s@.len(),
{
    let n = s.len();
    let mut k = j;
    while k < n && is_whitespace(s[k])
        invariant
            n == s@.len(),
            j <= k <= n,
            skip_ws(s@, j as int) == skip_ws(s@, k as int),
        decreases n - k,
    {
        k = k + 1;
    }
    k
}

fn digits_end_at(s: &[char], j: usize) -> (r: usize)
    requires
        j <= s@.len(),
    ensures
        r as int == digits_end(s@, j as int),
        j <= r <= s@.len(),
        forall|k: int| j <= k < r ==> is_digit(#[trigger] s@[k]),
{
    let n = s.len();
    let mut k = j;
    while k < n && '0' <= s[k] && s[k] <= '9'
        invariant
            n == s@.len(),
            j <= k <= n,
            digits_end(s@, j as int) == digits_end(s@, k as int),
            forall|m: int| j <= m < k ==> is_digit(#[trigger] s@[m]),
        decreases n - k,
    {
        k = k + 1;
    }
    k
}

fn fraction_start_at(s: &[char], i: usize) -> (r: Option<usize>)
    requires
        i <= s@.len(),
    ensures
        match r {
            Some(k) => fraction_start(s@, i as int) == Some(k as int) && k < s@.len()
                && digits_end(s@, i as int) < k,
            None => fraction_start(s@, i as int) is None,
        },
{
    let n = s.len();
    let e1 = digits_end_at(s, i);
    let p = skip_ws_at(s, e1);
    if p < n && s[p] == '.' {
        let k = skip_ws_at(s, p + 1);
        if k < n && '0' <= s[k] && s[k] <= '9' {
            return Some(k);
        }
    }
    None
}

/// End and compact text of the unsigned number whose first digit is at `i`.
fn number_at(s: &[char], i: usize) -> (r: (usize, Vec<char>))
    requires
        i < s@.len(),
        is_digit(s@[i as int]),
    ensures
        r.0 as int == number_end(s@, i as int),
        r.1@ == number_text(s@, i as int),
        i < r.0 <= s@.len(),
{
    let n = s.len();
    let e1 = digits_end_at(s, i + 1);
    assert(digits_end(s@, i as int) == digits_end(s@, i + 1));
    let mut text = crate::text::slice_vec(s, i, e1);
    match fraction_start_at(s, i) {
        Some(k) => {
            let e2 = digits_end_at(s, k);
            text.push('.');
            let ghost mid = text@;
            let mut m = k;
            while m < e2
                invariant
                    k <= m <= e2 <= s@.len(),
                    text@ == mid + s@.subrange(k as int, m as int),
                decreases e2 - m,
            {
                text.push(s[m]);
                assert(s@.subrange(k as int, m + 1) =~= s@.subrange(k as int, m as int).push(
                    s@[m as int],
                ));
                m = m + 1;
            }
            assert(text@ =~= number_text(s@, i as int));
            (e2, text)
        },
        None => (e1, text),
    }
}

fn signed_start_at(s: &[char], j: usize) -> (r: Option<(bool, usize)>)
    requires
        j <= s@.len(),
    ensures
        match r {
            Some((negative, d)) => signed_start(s@, j as int) == Some((negative, d as int)) && d
                < s@.len() && is_digit(s@[d as int]),
            None => signed_start(s@, j as int) is None,
        },
{
    let n = s.len();
    if j < n && '0' <= s[j] && s[j] <= '9' {
        Some((false, j))
    } else if j < n && j + 1 < n && s[j] == '-' && '0' <= s[j + 1] && s[j + 1] <= '9' {
        Some((true, j + 1))
    } else {
        None
    }
}

fn is_zero_chars(t: &[char]) -> (b: bool)
    ensures
        b == is_zero_text(t@),
{
    let n = t.len();
    let mut k: usize = 0;
    while k < n
        invariant
            n == t@.len(),
            k <= n,
            forall|m: int| 0 <= m < k ==> (#[trigger] t@[m] == '0' || t@[m] == '.'),
        decreases n - k,
    {
        if t[k] != '0' && t[k] != '.' {
            return false;
        }
        k = k + 1;
    }
    true
}

/// Where the signed number at `j` ends, and whether it is below zero.
fn signed_number_at(s: &[char], j: usize) -> (r: Option<(usize, bool)>)
    requires
        j <= s@.len(),
    ensures
        match r {
            Some((e, below)) => signed_start(s@, j as int) is Some && e as int == signed_end(
                s@,
                j as int,
            ) && below == below_zero(s@, j as int) && j < e <= s@.len(),
            None => signed_start(s@, j as int) is None,
        },
{
    match signed_start_at(s, j) {
        None => None,
        Some((negative, d)) => {
            let (e, text) = number_at(s, d);
            let below = negative && !is_zero_chars(text.as_slice());
            Some((e, below))
        },
    }
}

fn paren_range_at(s: &[char], j: usize) -> (r: Option<(usize, usize)>)
    requires
        j <= s@.len(),
    ensures
        match r {
            Some((e, h)) => paren_range(s@, j as int) == Some((e as int, h as int)) && j < e
                <= s@.len() && j + 1 < h <= s@.len(),
            None => paren_range(s@, j as int) is None,
        },
{
    let n = s.len();
    if j < n && s[j] == '(' {
        match signed_number_at(s, j + 1) {
            Some((e1, _)) => {
                if e1 < n && s[e1] == '-' {
                    match signed_number_at(s, e1 + 1) {
                        Some((e2, _)) => {
                            if e2 < n && s[e2] == ')' {
                                return Some((e2 + 1, e1 + 1));
                            }
                        },
                        None => {},
                    }
                }
            },
            None => {},
        }
    }
    None
}

fn meta_end_at(s: &[char], e: usize) -> (r: usize)
    requires
        e <= s@.len(),
    ensures
        r as int == meta_end(s@, e as int),
        e <= r <= s@.len(),
{
    let n = s.len();
    if e < n && s[e] == '(' {
        match signed_number_at(s, e + 1) {
            Some((e1, _)) => {
                if e1 < n && s[e1] == ')' {
                    return e1 + 1;
                }
                if e1 < n && s[e1] == '-' {
                    match signed_number_at(s, e1 + 1) {
                        Some((e2, _)) => {
                            if e2 < n && s[e2] == ')' {
                                return e2 + 1;
                            }
                        },
                        None => {},
                    }
                }
            },
            None => {},
        }
    }
    e
}

fn roll_value_of(minus: bool, t: &[char]) -> (r: Option<Decimal>)
    ensures
        match r {
            Some(d) => roll_value(minus, t@) == Some(d@),
            None => roll_value(minus, t@) is None,
        },
{
    let mut text: Vec<char> = Vec::new();
    if minus {
        text.push('-');
    }
    let ghost mid = text@;
    let n = t.len();
    let mut k: usize = 0;
    while k < n
        invariant
            n == t@.len(),
            k <= n,
            text@ == mid + t@.take(k as int),
        decreases n - k,
    {
        text.push(t[k]);
        assert(t@.take(k + 1) =~= t@.take(k as int).push(t@[k as int]));
        k = k + 1;
    }
    assert(t@.take(n as int) =~= t@);
    assert(text@ =~= (if minus {
        seq!['-'] + t@
    } else {
        t@
    }));
    match Decimal::parse_chars(text.as_slice()) {
        Ok(d) => Some(d),
        Err(_) => None,
    }
}

fn sign_of(minus: bool) -> (r: SlotSign)
    ensures
        r == plain_sign(minus),
{
    if minus {
        SlotSign::Negative
    } else {
        SlotSign::NonNegative
    }
}

fn range_sign_of(minus: bool, low_below: bool, high_below: bool) -> (r: SlotSign)
    ensures
        r == range_sign(minus, low_below, high_below),
{
    if minus {
        SlotSign::Negative
    } else if low_below && !high_below {
        SlotSign::Either
    } else if high_below {
        SlotSign::Negative
    } else {
        SlotSign::NonNegative
    }
}

fn slot_core_at(s: &[char], i: usize) -> (r: Option<(usize, SlotSign, Option<Decimal>)>)
    requires
        i < s@.len(),
    ensures
        match r {
            Some((e, sign, v)) => slot_core(s@, i as int) == Some(
                (e as int, sign, opt_units(v)),
            ) && i < e <= s@.len(),
            None => slot_core(s@, i as int) is None,
        },
{
    let n = s.len();
    let minus = s[i] == '-';
    let j = if s[i] == '+' || s[i] == '-' {
        skip_ws_at(s, i + 1)
    } else {
        i
    };
    assert(j as int == core_start(s@, i as int));
    if j >= n {
        return None;
    }
    if s[j] == '#' {
        return Some((j + 1, sign_of(minus), None));
    }
    match paren_range_at(s, j) {
        Some((e, h)) => {
            let low = signed_number_at(s, j + 1);
            let high = signed_number_at(s, h);
            let low_below = match low {
                Some((_, b)) => b,
                None => false,
            };
            let high_below = match high {
                Some((_, b)) => b,
                None => false,
            };
            return Some((e, range_sign_of(minus, low_below, high_below), None));
        },
        None => {},
    }
    if '0' <= s[j] && s[j] <= '9' {
        let (e1, text) = number_at(s, j);
        if e1 < n && s[e1] == '-' {
            match signed_number_at(s, e1 + 1) {
                Some((e2, high_below)) => {
                    let low_below = minus && !is_zero_chars(text.as_slice());
                    return Some((e2, range_sign_of(false, low_below, high_below), None));
                },
                None => {},
            }
        }
        let e = meta_end_at(s, e1);
        let v = roll_value_of(minus, text.as_slice());
        return Some((e, sign_of(minus), v));
    }
    None
}

pub open spec fn opt_units(v: Option<Decimal>) -> Option<int> {
    match v {
        Some(d) => Some(d@),
        None => None,
    }
}

fn slot_at_exec(s: &[char], i: usize) -> (r: Option<(usize, AffixTokenKind, Option<Decimal>)>)
    requires
        i < s@.len(),
    ensures
        match r {
            Some((e, k, v)) => slot_at(s@, i as int) == Some((e as int, k, opt_units(v))) && i
                < e <= s@.len() && !(k is Word),
            None => slot_at(s@, i as int) is None,
        },
{
    match slot_core_at(s, i) {
        None => None,
        Some((e, sign, v)) => {
            let p = skip_ws_at(s, e);
            if p < s.len() && s[p] == '%' {
                Some((p + 1, AffixTokenKind::Percent(sign), v))
            } else {
                Some((e, AffixTokenKind::Number(sign), v))
            }
        },
    }
}

fn is_letter_exec(c: char) -> (b: bool)
    ensures
        b == is_letter(c),
{
    ('a' <= c && c <= 'z') || ('A' <= c && c <= 'Z')
}

fn word_char_exec(s: &[char], j: usize) -> (b: bool)
    requires
        j < s@.len(),
    ensures
        b == word_char_at(s@, j as int),
{
    let n = s.len();
    let c = s[j];
    is_letter_exec(c) || c == '\'' || ('0' <= c && c <= '9' && j > 0 && is_letter_exec(s[j - 1])
        && j + 1 < n && is_letter_exec(s[j + 1]))
}

fn joiner_exec(s: &[char], j: usize) -> (b: bool)
    requires
        j < s@.len(),
    ensures
        b == joiner_at(s@, j as int),
{
    let n = s.len();
    0 < j && j + 1 < n && s[j] == '-' && is_letter_exec(s[j - 1]) && is_letter_exec(s[j + 1])
}

fn word_at(s: &[char], i: usize) -> (r: (usize, Vec<char>))
    requires
        i < s@.len(),
        word_char_at(s@, i as int),
    ensures
        r.0 as int == word_end(s@, i as int),
        r.1@ == word_text(s@, i as int),
        i < r.0 <= s@.len(),
{
    let n = s.len();
    let mut k = i;
    let mut text: Vec<char> = Vec::new();
    while k < n && (word_char_exec(s, k) || joiner_exec(s, k))
        invariant
            n == s@.len(),
            i <= k <= n,
            k == i ==> word_char_at(s@, i as int),
            word_end(s@, i as int) == word_end(s@, k as int),
            word_text(s@, i as int) == text@ + word_text(s@, k as int),
        decreases n - k,
    {
        if word_char_exec(s, k) {
            text.push(s[k]);
        }
        proof {
            if word_char_at(s@, k as int) {
                assert(word_text(s@, k as int) == seq![s@[k as int]] + word_text(s@, k + 1));
            }
        }
        k = k + 1;
    }
    assert(word_text(s@, k as int) =~= Seq::<char>::empty());
    assert(text@ =~= text@ + Seq::<char>::empty());
    (k, text)
}

fn is_glyph_exec(c: char) -> (b: bool)
    ensures
        b == is_glyph(c),
{
    let u = c as u32;
    u >= 0x80 && !is_whitespace(c) && !((0x80 <= u && u <= 0xBF) || (0x2000 <= u && u <= 0x206F)
        || (0x3000 <= u && u <= 0x303F) || (0xFE30 <= u && u <= 0xFE4F) || (0xFF00 <= u && u
        <= 0xFFEF))
}

pub open spec fn values_view(v: Seq<Option<Decimal>>) -> Seq<Option<int>> {
    v.map_values(|x: Option<Decimal>| opt_units(x))
}

pub open spec fn affix_views(v: Seq<AffixToken>) -> Seq<(AffixTokenKind, Seq<char>)> {
    v.map_values(|t: AffixToken| t@)
}

proof fn lemma_push_lexeme(t: Seq<AffixToken>, tok: AffixToken, acc: Seq<Lexeme>, x: Lexeme)
    requires
        affix_views(t) == token_views(acc),
        tok@ == (x.0, x.1),
    ensures
        affix_views(t.push(tok)) == token_views(acc.push(x)),
        slot_values(acc.push(x)) == (if x.0 is Word {
            slot_values(acc)
        } else {
            slot_values(acc).push(x.2)
        }),
{
    assert(affix_views(t.push(tok)) =~= affix_views(t).push(tok@));
    assert(token_views(acc.push(x)) =~= token_views(acc).push((x.0, x.1)));
    assert(acc.push(x).drop_last() =~= acc);
}

/// Tokens and slot values of a cleaned text.
pub fn lex_chars(s: &[char]) -> (r: (Vec<AffixToken>, Vec<Option<Decimal>>))
    ensures
        affix_views(r.0@) == token_views(lex(s@)),
        values_view(r.1@) == slot_values(lex(s@)),
{
    let n = s.len();
    let mut tokens: Vec<AffixToken> = Vec::new();
    let mut values: Vec<Option<Decimal>> = Vec::new();
    let ghost mut acc: Seq<Lexeme> = Seq::empty();
    let mut i: usize = 0;
    while i < n
        invariant
            n == s@.len(),
            i <= n,
            lex_from(s@, 0) == acc + lex_from(s@, i as int),
            affix_views(tokens@) == token_views(acc),
            values_view(values@) == slot_values(acc),
        decreases n - i,
    {
        let ghost step = step_at(s@, i as int);
        let mut next = i + 1;
        if is_whitespace(s[i]) {
            assert(step == (None::<Lexeme>, i + 1));
        } else {
            match slot_at_exec(s, i) {
                Some((e, kind, v)) => {
                    let ghost x: Lexeme = (kind, Seq::empty(), opt_units(v));
                    assert(step == (Some(x), e as int));
                    let tok = AffixToken { kind, text: Vec::new() };
                    proof {
                        lemma_push_lexeme(tokens@, tok, acc, x);
                    }
                    let ghost v0 = values@;
                    tokens.push(tok);
                    values.push(v);
                    proof {
                        assert(values_view(values@) =~= values_view(v0).push(opt_units(v)));
                        acc = acc.push(x);
                    }
                    next = e;
                },
                None => {
                    if word_char_exec(s, i) {
                        let (e, text) = word_at(s, i);
                        let ghost x: Lexeme = (AffixTokenKind::Word, text@, None);
                        assert(step == (Some(x), e as int));
                        let tok = AffixToken { kind: AffixTokenKind::Word, text };
                        proof {
                            lemma_push_lexeme(tokens@, tok, acc, x);
                        }
                        tokens.push(tok);
                        proof {
                            acc = acc.push(x);
                        }
                        next = e;
                    } else if is_glyph_exec(s[i]) {
                        let mut text: Vec<char> = Vec::new();
                        text.push(s[i]);
                        let ghost x: Lexeme = (AffixTokenKind::Word, text@, None);
                        assert(text@ =~= seq![s@[i as int]]);
                        assert(step == (Some(x), i + 1));
                        let tok = AffixToken { kind: AffixTokenKind::Word, text };
                        proof {
                            lemma_push_lexeme(tokens@, tok, acc, x);
                        }
                        tokens.push(tok);
                        proof {
                            acc = acc.push(x);
                        }
                    } else {
                        assert(step == (None::<Lexeme>, i + 1));
                    }
                },
            }
        }
        i = next;
    }
    assert(acc + lex_from(s@, n as int) =~= acc);
    (tokens, values)
}

// ---------------------------------------------------------------------------
// Canonical forms
// ---------------------------------------------------------------------------

/// A text folded to its canonical tokens, with a readable rendering in which
/// slots show as `<NUM>` and `<PCT>`.
#[derive(Clone, Debug, PartialEq, Eq)]
pub struct CanonicalAffix {
    pub text: String,
    pub tokens: Vec<AffixToken>,
}

pub open spec fn show(t: (AffixTokenKind, Seq<char>)) -> Seq<char> {
    match t.0 {
        AffixTokenKind::Word => t.1,
        AffixTokenKind::Number(_) => seq!['<', 'N', 'U', 'M', '>'],
        AffixTokenKind::Percent(_) => seq!['<', 'P', 'C', 'T', '>'],
    }
}

/// Tokens rendered and separated by single spaces.
pub open spec fn display(t: Seq<(AffixTokenKind, Seq<char>)>) -> Seq<char>
    decreases t.len(),
{
    if t.len() == 0 {
        Seq::empty()
    } else if t.len() == 1 {
        show(t[0])
    } else {
        display(t.drop_last()) + seq![' '] + show(t.last())
    }
}

/// The text a canonical form is read from: every line cleaned, joined by spaces.
pub open spec fn canonical_source(text: Seq<char>) -> Seq<char> {
    joined(lines_of(text))
}

/// The canonical tokens of a text.
pub open spec fn shape_of(text: Seq<char>) -> Seq<(AffixTokenKind, Seq<char>)> {
    token_views(lex(canonical_source(text)))
}

fn push_seq(out: &mut Vec<char>, t: &[char])
    ensures
        final(out)@ == old(out)@ + t@,
{
    let n = t.len();
    let mut k: usize = 0;
    let ghost start = out@;
    while k < n
        invariant
            n == t@.len(),
            k <= n,
            out@ == start + t@.take(k as int),
        decreases n - k,
    {
        out.push(t[k]);
        assert(t@.take(k + 1) =~= t@.take(k as int).push(t@[k as int]));
        k = k + 1;
    }
    assert(t@.take(n as int) =~= t@);
}

fn show_token(t: &AffixToken) -> (r: Vec<char>)
    ensures
        r@ == show(t@),
{
    match t.kind {
        AffixTokenKind::Word => crate::text::copy_chars(&t.text),
        AffixTokenKind::Number(_) => {
            let r = vec!['<', 'N', 'U', 'M', '>'];
            assert(r@ =~= seq!['<', 'N', 'U', 'M', '>']);
            r
        },
        AffixTokenKind::Percent(_) => {
            let r = vec!['<', 'P', 'C', 'T', '>'];
            assert(r@ =~= seq!['<', 'P', 'C', 'T', '>']);
            r
        },
    }
}

fn copy_tokens(tokens: &Vec<AffixToken>) -> (r: Vec<AffixToken>)
    ensures
        affix_views(r@) == affix_views(tokens@),
{
    let n = tokens.len();
    let mut out: Vec<AffixToken> = Vec::new();
    let mut i: usize = 0;
    while i < n
        invariant
            n == tokens@.len(),
            i <= n,
            affix_views(out@) == affix_views(tokens@).take(i as int),
        decreases n - i,
    {
        let t = AffixToken { kind: tokens[i].kind, text: crate::text::copy_chars(&tokens[i].text) };
        let ghost before = out@;
        out.push(t);
        assert(affix_views(out@) =~= affix_views(before).push(t@));
        assert(affix_views(tokens@).take(i + 1) =~= affix_views(tokens@).take(i as int).push(
            tokens@[i as int]@,
        ));
        i = i + 1;
    }
    assert(affix_views(tokens@).take(n as int) =~= affix_views(tokens@));
    out
}

pub fn display_tokens(tokens: &Vec<AffixToken>) -> (r: Vec<char>)
    ensures
        r@ == display(affix_views(tokens@)),
{
    let n = tokens.len();
    let mut out: Vec<char> = Vec::new();
    let mut i: usize = 0;
    while i < n
        invariant
            n == tokens@.len(),
            i <= n,
            out@ == display(affix_views(tokens@).take(i as int)),
        decreases n - i,
    {
        let ghost t = affix_views(tokens@).take(i + 1);
        assert(t.drop_last() =~= affix_views(tokens@).take(i as int));
        if i > 0 {
            out.push(' ');
        }
        let shown = show_token(&tokens[i]);
        push_seq(&mut out, shown.as_slice());
        proof {
            if i == 0 {
                assert(out@ =~= display(t));
            } else {
                assert(out@ =~= display(t));
            }
        }
        i = i + 1;
    }
    assert(affix_views(tokens@).take(n as int) =~= affix_views(tokens@));
    out
}

fn source_chars(text: &str) -> (r: Vec<char>)
    ensures
        r@ == canonical_source(text@),
{
    let chars = chars_of(text);
    let lines = split_lines(chars.as_slice());
    let r = join_lines(lines.as_slice(), 0, lines.len());
    assert(views(lines@).subrange(0, lines@.len() as int) =~= views(lines@));
    r
}

/// The canonical form of a text (a template, or a modifier as displayed).
pub fn canonicalize(text: &str) -> (c: CanonicalAffix)
    ensures
        affix_views(c.tokens@) == shape_of(text@),
        c.text@ == display(shape_of(text@)),
{
    let source = source_chars(text);
    let (tokens, _) = lex_chars(source.as_slice());
    let shown = display_tokens(&tokens);
    CanonicalAffix { text: string_of(shown.as_slice()), tokens }
}

/// The values the numeric slots of a text display, in slot order; `None` for
/// a placeholder, a range, or a value a `Decimal` cannot hold.
pub fn extract_values(text: &str) -> (v: Vec<Option<Decimal>>)
    ensures
        values_view(v@) == slot_values(lex(canonical_source(text@))),
{
    let source = source_chars(text);
    let (_, values) = lex_chars(source.as_slice());
    values
}

// ---------------------------------------------------------------------------
// Matching
// ---------------------------------------------------------------------------

/// A character read off an item can stand for a template character: itself,
/// or a digit a reader took for the letter (`1` for `i` or `l`, `0` for `o`).
pub open spec fn glyph_fits(t: char, x: char) -> bool {
    t == x || (x == '1' && (t == 'i' || t == 'l')) || (x == '0' && t == 'o')
}

pub open spec fn word_fits(t: Seq<char>, x: Seq<char>) -> bool {
    t.len() == x.len() && forall|k: int| 0 <= k < t.len() ==> glyph_fits(#[trigger] t[k], x[k])
}

/// A template slot's signs admit the sign a line's slot carries.
pub open spec fn sign_fits(t: SlotSign, x: SlotSign) -> bool {
    t == SlotSign::Either || t == x
}

pub open spec fn token_fits(t: (AffixTokenKind, Seq<char>), x: (AffixTokenKind, Seq<char>)) -> bool {
    match t.0 {
        AffixTokenKind::Word => x.0 is Word && word_fits(t.1, x.1),
        AffixTokenKind::Number(a) => match x.0 {
            AffixTokenKind::Number(b) => sign_fits(a, b),
            _ => false,
        },
        AffixTokenKind::Percent(a) => match x.0 {
            AffixTokenKind::Percent(b) => sign_fits(a, b),
            _ => false,
        },
    }
}

/// A line's tokens fit a template's tokens one for one.
pub open spec fn tokens_fit(
    t: Seq<(AffixTokenKind, Seq<char>)>,
    x: Seq<(AffixTokenKind, Seq<char>)>,
) -> bool {
    t.len() == x.len() && forall|i: int| 0 <= i < t.len() ==> token_fits(#[trigger] t[i], x[i])
}

fn word_fits_exec(t: &Vec<char>, x: &Vec<char>) -> (b: bool)
    ensures
        b == word_fits(t@, x@),
{
    let n = t.len();
    if n != x.len() {
        return false;
    }
    let mut k: usize = 0;
    while k < n
        invariant
            n == t@.len(),
            n == x@.len(),
            k <= n,
            forall|m: int| 0 <= m < k ==> glyph_fits(#[trigger] t@[m], x@[m]),
        decreases n - k,
    {
        let a = t[k];
        let c = x[k];
        if !(a == c || (c == '1' && (a == 'i' || a == 'l')) || (c == '0' && a == 'o')) {
            return false;
        }
        k = k + 1;
    }
    true
}

fn sign_fits_exec(t: SlotSign, x: SlotSign) -> (b: bool)
    ensures
        b == sign_fits(t, x),
{
    match t {
        SlotSign::Either => true,
        SlotSign::NonNegative => x == SlotSign::NonNegative,
        SlotSign::Negative => x == SlotSign::Negative,
    }
}

fn token_fits_exec(t: &AffixToken, x: &AffixToken) -> (b: bool)
    ensures
        b == token_fits(t@, x@),
{
    match t.kind {
        AffixTokenKind::Word => match x.kind {
            AffixTokenKind::Word => word_fits_exec(&t.text, &x.text),
            _ => false,
        },
        AffixTokenKind::Number(a) => match x.kind {
            AffixTokenKind::Number(b) => sign_fits_exec(a, b),
            _ => false,
        },
        AffixTokenKind::Percent(a) => match x.kind {
            AffixTokenKind::Percent(b) => sign_fits_exec(a, b),
            _ => false,
        },
    }
}

/// `tokens_fit` over token vectors.
pub fn tokens_fit_exec(t: &Vec<AffixToken>, x: &Vec<AffixToken>) -> (b: bool)
    ensures
        b == tokens_fit(affix_views(t@), affix_views(x@)),
{
    let n = t.len();
    if n != x.len() {
        return false;
    }
    let mut i: usize = 0;
    while i < n
        invariant
            n == t@.len(),
            n == x@.len(),
            i <= n,
            forall|k: int|
                0 <= k < i ==> token_fits(#[trigger] affix_views(t@)[k], affix_views(x@)[k]),
        decreases n - i,
    {
        if !token_fits_exec(&t[i], &x[i]) {
            assert(!token_fits(affix_views(t@)[i as int], affix_views(x@)[i as int]));
            return false;
        }
        i = i + 1;
    }
    true
}

/// Why a template cannot become a matcher.
#[derive(Clone, Copy, Debug, PartialEq, Eq, Structural)]
pub enum AffixTemplateError {
    /// Nothing of the template survives canonicalization.
    EmptyTemplate,
    /// The line span is not between 1 and `MAXIMUM_SUPPORTED_PHYSICAL_LINE_SPAN`.
    UnsupportedLineSpan,
}

impl AffixTemplateError {
    pub open spec fn message_spec(self) -> Seq<char> {
        match self {
            AffixTemplateError::EmptyTemplate => "the template has no words or values"@,
            AffixTemplateError::UnsupportedLineSpan => "the line span must be between 1 and 8"@,
        }
    }

    /// What went wrong, in words.
    pub fn message(&self) -> (s: String)
        ensures
            s@ == self.message_spec(),
    {
        match self {
            AffixTemplateError::EmptyTemplate => {
                let s = String::from_str("the template has no words or values");
                proof {
                    reveal_strlit("the template has no words or values");
                }
                s
            },
            AffixTemplateError::UnsupportedLineSpan => {
                let s = String::from_str("the line span must be between 1 and 8");
                proof {
                    reveal_strlit("the line span must be between 1 and 8");
                }
                s
            },
        }
    }
}

/// A compiled template that decides whether a line, or a few wrapped lines,
/// carry exactly this modifier.
#[derive(Debug)]
pub struct FullLineAffixMatcher {
    template: CanonicalAffix,
    maximum_line_span: usize,
}

/// Where a template matched in a list of physical lines.
#[derive(Clone, Debug, PartialEq, Eq)]
pub struct LogicalAffixMatch {
    pub start_line_index: usize,
    pub physical_line_count: usize,
    /// The matched lines, trimmed and joined by spaces.
    pub original_text: String,
    /// The canonical rendering of the matched lines.
    pub canonical_text: String,
}

/// Lines trimmed and joined by single spaces, as a reader shows them.
pub open spec fn plain_joined(lines: Seq<Seq<char>>) -> Seq<char>
    decreases lines.len(),
{
    if lines.len() == 0 {
        Seq::empty()
    } else if lines.len() == 1 {
        trim(lines[0])
    } else {
        plain_joined(lines.drop_last()) + seq![' '] + trim(lines.last())
    }
}

/// `plain_joined` of `lines[from..to]`.
pub fn plain_join(lines: &[Vec<char>], from: usize, to: usize) -> (out: Vec<char>)
    requires
        from <= to <= lines@.len(),
    ensures
        out@ == plain_joined(views(lines@).subrange(from as int, to as int)),
{
    let mut out: Vec<char> = Vec::new();
    let mut i = from;
    assert(views(lines@).subrange(from as int, from as int) =~= Seq::<Seq<char>>::empty());
    while i < to
        invariant
            from <= i <= to <= lines@.len(),
            out@ == plain_joined(views(lines@).subrange(from as int, i as int)),
        decreases to - i,
    {
        let t = trim_chars(lines[i].as_slice());
        let ghost before = views(lines@).subrange(from as int, i as int);
        let ghost after = views(lines@).subrange(from as int, i + 1);
        assert(after.drop_last() =~= before);
        assert(after.last() == lines@[i as int]@);
        if i > from {
            out.push(' ');
        }
        push_seq(&mut out, t.as_slice());
        assert(out@ =~= plain_joined(after));
        i = i + 1;
    }
    out
}

pub open spec fn blank(l: Seq<char>) -> bool {
    trim(l).len() == 0
}

/// Lines `start..start+count` can be read as one modifier: between one and
/// `max` lines, none of them blank.
pub open spec fn span_readable(lines: Seq<Seq<char>>, start: int, count: int, max: int) -> bool {
    &&& 1 <= count <= max
    &&& 0 <= start
    &&& start + count <= lines.len()
    &&& forall|k: int| start <= k < start + count ==> !blank(#[trigger] lines[k])
}

pub open spec fn span_source(lines: Seq<Seq<char>>, start: int, count: int) -> Seq<char> {
    joined(lines.subrange(start, start + count))
}

pub open spec fn span_fits(
    shape: Seq<(AffixTokenKind, Seq<char>)>,
    lines: Seq<Seq<char>>,
    start: int,
    count: int,
    max: int,
) -> bool {
    span_readable(lines, start, count, max) && tokens_fit(
        shape,
        token_views(lex(span_source(lines, start, count))),
    )
}

/// `(s1, c1)` comes before `(s2, c2)`: an earlier start, or the same start and fewer lines.
pub open spec fn span_before(s1: int, c1: int, s2: int, c2: int) -> bool {
    s1 < s2 || (s1 == s2 && c1 < c2)
}

pub fn is_blank(l: &[char]) -> (b: bool)
    ensures
        b == blank(l@),
{
    trim_chars(l).len() == 0
}

impl FullLineAffixMatcher {
    #[verifier::type_invariant]
    closed spec fn inv(self) -> bool {
        &&& self.template.text@ == display(affix_views(self.template.tokens@))
        &&& affix_views(self.template.tokens@).len() > 0
        &&& 1 <= self.maximum_line_span <= MAXIMUM_SUPPORTED_PHYSICAL_LINE_SPAN
    }

    /// A second matcher for the same template and span.
    pub fn duplicate(&self) -> (m: FullLineAffixMatcher)
        ensures
            m.shape() == self.shape(),
            m.span() == self.span(),
    {
        proof {
            use_type_invariant(self);
        }
        let tokens = copy_tokens(&self.template.tokens);
        FullLineAffixMatcher {
            template: CanonicalAffix { text: self.template.text.clone(), tokens },
            maximum_line_span: self.maximum_line_span,
        }
    }

    /// The template's canonical tokens.
    pub closed spec fn shape(&self) -> Seq<(AffixTokenKind, Seq<char>)> {
        affix_views(self.template.tokens@)
    }

    /// The most physical lines one match may span.
    pub closed spec fn span(&self) -> int {
        self.maximum_line_span as int
    }

    /// A matcher with the default line span.
    pub fn new(template: &str) -> (r: Result<FullLineAffixMatcher, AffixTemplateError>)
        ensures
            match r {
                Ok(m) => m.shape() == shape_of(template@) && m.span()
                    == DEFAULT_MAXIMUM_PHYSICAL_LINE_SPAN && shape_of(template@).len() > 0,
                Err(e) => e == AffixTemplateError::EmptyTemplate && shape_of(template@).len()
                    == 0,
            },
    {
        FullLineAffixMatcher::with_maximum_line_span(template, DEFAULT_MAXIMUM_PHYSICAL_LINE_SPAN)
    }

    /// A matcher whose matches may span up to `maximum_line_span` lines.
    pub fn with_maximum_line_span(template: &str, maximum_line_span: usize) -> (r: Result<
        FullLineAffixMatcher,
        AffixTemplateError,
    >)
        ensures
            match r {
                Ok(m) => m.shape() == shape_of(template@) && m.span() == maximum_line_span && 1
                    <= maximum_line_span <= MAXIMUM_SUPPORTED_PHYSICAL_LINE_SPAN && shape_of(
                    template@,
                ).len() > 0,
                Err(e) => e == (if !(1 <= maximum_line_span
                    <= MAXIMUM_SUPPORTED_PHYSICAL_LINE_SPAN) {
                    AffixTemplateError::UnsupportedLineSpan
                } else {
                    AffixTemplateError::EmptyTemplate
                }) && (!(1 <= maximum_line_span <= MAXIMUM_SUPPORTED_PHYSICAL_LINE_SPAN)
                    || shape_of(template@).len() == 0),
            },
    {
        if maximum_line_span < 1 || maximum_line_span > MAXIMUM_SUPPORTED_PHYSICAL_LINE_SPAN {
            return Err(AffixTemplateError::UnsupportedLineSpan);
        }
        let canonical = canonicalize(template);
        if canonical.tokens.len() == 0 {
            return Err(AffixTemplateError::EmptyTemplate);
        }
        Ok(FullLineAffixMatcher { template: canonical, maximum_line_span })
    }

    /// The template's canonical form.
    pub fn template(&self) -> (t: &CanonicalAffix)
        ensures
            affix_views(t.tokens@) == self.shape(),
            t.text@ == display(self.shape()),
            self.shape().len() > 0,
    {
        proof {
            use_type_invariant(self);
        }
        &self.template
    }

    /// The most physical lines one match may span.
    pub fn maximum_line_span(&self) -> (n: usize)
        ensures
            n == self.span(),
            1 <= n <= MAXIMUM_SUPPORTED_PHYSICAL_LINE_SPAN,
    {
        proof {
            use_type_invariant(self);
        }
        self.maximum_line_span
    }

    /// Does a canonical form fit this template?
    pub fn is_canonical_match(&self, candidate: &CanonicalAffix) -> (b: bool)
        ensures
            b == tokens_fit(self.shape(), affix_views(candidate.tokens@)),
    {
        tokens_fit_exec(&self.template.tokens, &candidate.tokens)
    }

    /// Does a text (its lines read as one modifier) carry exactly this modifier?
    pub fn is_match(&self, text: &str) -> (b: bool)
        ensures
            b == tokens_fit(self.shape(), shape_of(text@)),
    {
        let canonical = canonicalize(text);
        tokens_fit_exec(&self.template.tokens, &canonical.tokens)
    }

    /// The first run of physical lines (by start, then by length) that reads
    /// as this modifier.
    pub fn find_match(&self, lines: &[String]) -> (r: Option<LogicalAffixMatch>)
        ensures
            ({
                let ls = string_views(lines@);
                match r {
                    Some(m) => span_fits(
                        self.shape(),
                        ls,
                        m.start_line_index as int,
                        m.physical_line_count as int,
                        self.span(),
                    ) && m.canonical_text@ == display(
                        token_views(
                            lex(
                                span_source(
                                    ls,
                                    m.start_line_index as int,
                                    m.physical_line_count as int,
                                ),
                            ),
                        ),
                    ) && m.original_text@ == plain_joined(
                        ls.subrange(
                            m.start_line_index as int,
                            (m.start_line_index + m.physical_line_count) as int,
                        ),
                    ) && forall|s2: int, c2: int|
                        span_before(
                            s2,
                            c2,
                            m.start_line_index as int,
                            m.physical_line_count as int,
                        ) ==> !span_fits(self.shape(), ls, s2, c2, self.span()),
                    None => forall|s2: int, c2: int| !span_fits(self.shape(), ls, s2, c2, self.span()),
                }
            }),
    {
        let raw = crate::text::strings_to_lines(lines);
        let ghost ls = string_views(lines@);
        let n = raw.len();
        let max = self.maximum_line_span;
        let mut start: usize = 0;
        while start < n
            invariant
                n == raw@.len(),
                views(raw@) == ls,
                ls == string_views(lines@),
                max == self.span(),
                start <= n,
                forall|s2: int, c2: int|
                    s2 < start ==> !span_fits(self.shape(), ls, s2, c2, self.span()),
            decreases n - start,
        {
            let limit = if max < n - start {
                max
            } else {
                n - start
            };
            let mut reach: usize = 0;
            while reach < limit && !is_blank(raw[start + reach].as_slice())
                invariant
                    n == raw@.len(),
                    views(raw@) == ls,
                    ls == string_views(lines@),
                    start < n,
                    reach <= limit,
                    start + limit <= n,
                    forall|k: int| start <= k < start + reach ==> !blank(#[trigger] ls[k]),
                decreases limit - reach,
            {
                assert(ls[(start + reach) as int] == raw@[(start + reach) as int]@);
                reach = reach + 1;
            }
            proof {
                if reach < limit {
                    assert(ls[(start + reach) as int] == raw@[(start + reach) as int]@);
                    assert(blank(ls[(start + reach) as int]));
                }
                assert forall|c2: int| c2 > reach implies !span_readable(
                    ls,
                    start as int,
                    c2,
                    self.span(),
                ) by {
                    if reach < limit && span_readable(ls, start as int, c2, self.span()) {
                        assert(!blank(ls[(start + reach) as int]));
                    }
                }
            }
            let mut done: usize = 0;
            while done < reach
                invariant
                    n == raw@.len(),
                    views(raw@) == ls,
                    ls == string_views(lines@),
                    max == self.span(),
                    start < n,
                    done <= reach,
                    reach <= limit,
                    limit <= max,
                    start + limit <= n,
                    forall|k: int| start <= k < start + reach ==> !blank(#[trigger] ls[k]),
                    forall|c2: int|
                        c2 <= done ==> !span_fits(self.shape(), ls, start as int, c2, self.span()),
                    forall|s2: int, c2: int|
                        s2 < start ==> !span_fits(self.shape(), ls, s2, c2, self.span()),
                decreases reach - done,
            {
                let count = done + 1;
                let source = join_lines(raw.as_slice(), start, start + count);
                let (tokens, _) = lex_chars(source.as_slice());
                assert(views(raw@).subrange(start as int, (start + count) as int) =~= ls.subrange(
                    start as int,
                    start + count,
                ));
                assert(source@ == span_source(ls, start as int, count as int));
                if tokens_fit_exec(&self.template.tokens, &tokens) {
                    let shown = display_tokens(&tokens);
                    let original = plain_join(raw.as_slice(), start, start + count);
                    assert(span_readable(ls, start as int, count as int, self.span()));
                    assert(tokens_fit(self.shape(), affix_views(tokens@)));
                    assert(span_fits(self.shape(), ls, start as int, count as int, self.span()));
                    assert forall|s2: int, c2: int|
                        span_before(s2, c2, start as int, count as int) implies !span_fits(
                        self.shape(),
                        ls,
                        s2,
                        c2,
                        self.span(),
                    ) by {
                        if s2 == start {
                            assert(c2 <= done);
                        }
                    }
                    return Some(
                        LogicalAffixMatch {
                            start_line_index: start,
                            physical_line_count: count,
                            original_text: string_of(original.as_slice()),
                            canonical_text: string_of(shown.as_slice()),
                        },
                    );
                }
                done = count;
            }
            start = start + 1;
        }
        None
    }
}

} // verus!
