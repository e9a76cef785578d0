//! The cloze-deletion parser. A cloze deletion is written
//! `{{cN::text}}` or `{{cN::text::hint}}`: a positive number after `c`,
//! then the hidden text, then an optional hint, none of which may contain a
//! closing brace. Brace pairs must be balanced and never nested. Positions
//! are character indices into the original text.

use vstd::prelude::*;
use crate::text_units::chars_to_string;
use crate::text_units::string_chars;

verus! {

/// Why a text failed to parse as cloze markup.
#[derive(Debug, Clone)]
pub enum ClozeParseError {
    /// A deletion whose hidden text is empty or only whitespace.
    EmptyCloze,
    /// A deletion number that is zero or does not fit in `u32`; carries the
    /// offending digits.
    InvalidClozeNumber(String),
    /// More `{{` than `}}` or the other way round.
    UnmatchedBraces,
    /// A `{{` pair opened inside another.
    NestedClozes,
}

/// One parsed deletion: its number, hidden text, optional hint, and the
/// character span `[start_position, end_position)` of the whole `{{...}}`
/// form in the original text.
#[derive(Debug, Clone)]
pub struct ClozeSegment {
    pub cloze_number: u32,
    pub text: String,
    pub hint: Option<String>,
    pub start_position: usize,
    pub end_position: usize,
}

/// A fully parsed text with its deletions in order of appearance.
#[derive(Debug, Clone)]
pub struct ParsedCloze {
    pub original_text: String,
    pub segments: Vec<ClozeSegment>,
}

/// A decimal digit.
pub open spec fn is_digit(c: char) -> bool {
    0x30 <= (c as u32) <= 0x39
}

pub open spec fn digit_val(c: char) -> int {
    (c as u32) - 0x30
}

/// The first position at or after `i` that is not a digit.
pub open spec fn digit_run_end(s: Seq<char>, i: int) -> int
    decreases s.len() - i when 0 <= i <= s.len()
{
    if i >= s.len() {
        i
    } else if is_digit(s[i]) {
        digit_run_end(s, i + 1)
    } else {
        i
    }
}

pub proof fn lemma_digit_run_end(s: Seq<char>, i: int)
    requires
        0 <= i <= s.len(),
    ensures
        i <= digit_run_end(s, i) <= s.len(),
        forall|k: int| i <= k < digit_run_end(s, i) ==> is_digit(s[k]),
    decreases s.len() - i,
{
    if i < s.len() && is_digit(s[i]) {
        lemma_digit_run_end(s, i + 1);
    }
}

/// The value of the digit run `[i, j)`.
pub open spec fn digits_value(s: Seq<char>, i: int, j: int) -> int
    decreases j - i when 0 <= i <= j <= s.len()
{
    if j <= i {
        0
    } else {
        digits_value(s, i, j - 1) * 10 + digit_val(s[j - 1])
    }
}

proof fn lemma_digits_value_nonneg(s: Seq<char>, i: int, j: int)
    requires
        0 <= i <= j <= s.len(),
        forall|k: int| i <= k < j ==> is_digit(#[trigger] s[k]),
    ensures
        digits_value(s, i, j) >= 0,
    decreases j - i,
{
    if j > i {
        lemma_digits_value_nonneg(s, i, j - 1);
    }
}

proof fn lemma_digits_value_monotone(s: Seq<char>, i: int, j: int, k: int)
    requires
        0 <= i <= j <= k <= s.len(),
        forall|t: int| i <= t < k ==> is_digit(#[trigger] s[t]),
    ensures
        digits_value(s, i, j) <= digits_value(s, i, k),
    decreases k - j,
{
    if j < k {
        lemma_digits_value_monotone(s, i, j, k - 1);
        lemma_digits_value_nonneg(s, i, k - 1);
    }
}

/// The first closing brace at or after `i`.
pub open spec fn find_brace(s: Seq<char>, i: int) -> Option<int>
    decreases s.len() - i when 0 <= i <= s.len()
{
    if i >= s.len() {
        None
    } else if s[i] == '}' {
        Some(i)
    } else {
        find_brace(s, i + 1)
    }
}

pub proof fn lemma_find_brace_bounds(s: Seq<char>, i: int)
    requires
        0 <= i <= s.len(),
        find_brace(s, i) is Some,
    ensures
        i <= find_brace(s, i)->0 < s.len(),
    decreases s.len() - i,
{
    if i < s.len() && s[i] != '}' {
        lemma_find_brace_bounds(s, i + 1);
    }
}

/// A deletion form starting exactly at `i`: `{{c`, at least one digit
/// `[d0, d1)`, `::`, a body `[b0, b1)` free of closing braces, then `}}`.
/// The result holds `(d0, d1, b0, b1)`.
pub open spec fn try_match(s: Seq<char>, i: int) -> Option<(int, int, int, int)> {
    if !(0 <= i && i + 2 < s.len() && s[i] == '{' && s[i + 1] == '{' && s[i + 2] == 'c') {
        None
    } else {
        let d0 = i + 3;
        let d1 = digit_run_end(s, d0);
        if d1 == d0 {
            None
        } else if !(d1 + 1 < s.len() && s[d1] == ':' && s[d1 + 1] == ':') {
            None
        } else {
            let b0 = d1 + 2;
            match find_brace(s, b0) {
                Some(b1) => if b1 + 1 < s.len() && s[b1 + 1] == '}' {
                    Some((d0, d1, b0, b1))
                } else {
                    None
                },
                None => None,
            }
        }
    }
}

pub proof fn lemma_try_match_bounds(s: Seq<char>, i: int)
    requires
        0 <= i <= s.len(),
        try_match(s, i) is Some,
    ensures
        ({
            let m = try_match(s, i)->0;
            &&& m.0 == i + 3
            &&& m.0 <= m.1 <= m.2
            &&& m.2 <= m.3
            &&& m.3 + 2 <= s.len()
            &&& m.1 > m.0
        }),
{
    lemma_digit_run_end(s, i + 3);
    let d1 = digit_run_end(s, i + 3);
    lemma_find_brace_bounds(s, d1 + 2);
}

/// All deletion forms of the text from position `i` on, scanning left to
/// right; matches never overlap.
pub open spec fn matches_from(s: Seq<char>, i: int) -> Seq<(int, int, int, int)>
    decreases s.len() - i when 0 <= i <= s.len() via matches_from_decreases
{
    if i >= s.len() {
        Seq::empty()
    } else {
        match try_match(s, i) {
            Some(m) => seq![m] + matches_from(s, m.3 + 2),
            None => matches_from(s, i + 1),
        }
    }
}

#[via_fn]
proof fn matches_from_decreases(s: Seq<char>, i: int) {
    if 0 <= i < s.len() && try_match(s, i) is Some {
        lemma_try_match_bounds(s, i);
    }
}

/// All deletion forms of the text.
pub open spec fn cloze_matches(s: Seq<char>) -> Seq<(int, int, int, int)> {
    matches_from(s, 0)
}

/// The position of the `::` separating a body into text and hint: the first
/// `::` followed by at least one more body character.
pub open spec fn hint_pos(s: Seq<char>, k: int, b1: int) -> Option<int>
    decreases b1 - k when 0 <= k && b1 <= s.len()
{
    if k + 2 >= b1 {
        None
    } else if s[k] == ':' && s[k + 1] == ':' {
        Some(k)
    } else {
        hint_pos(s, k + 1, b1)
    }
}

/// A whitespace character, as Unicode defines White_Space.
pub open spec fn unicode_ws(c: char) -> bool {
    ||| c == '\u{0009}'
    ||| c == '\u{000A}'
    ||| c == '\u{000B}'
    ||| c == '\u{000C}'
    ||| c == '\u{000D}'
    ||| c == ' '
    ||| c == '\u{0085}'
    ||| c == '\u{00A0}'
    ||| c == '\u{1680}'
    ||| c == '\u{2000}'
    ||| c == '\u{2001}'
    ||| c == '\u{2002}'
    ||| c == '\u{2003}'
    ||| c == '\u{2004}'
    ||| c == '\u{2005}'
    ||| c == '\u{2006}'
    ||| c == '\u{2007}'
    ||| c == '\u{2008}'
    ||| c == '\u{2009}'
    ||| c == '\u{200A}'
    ||| c == '\u{2028}'
    ||| c == '\u{2029}'
    ||| c == '\u{202F}'
    ||| c == '\u{205F}'
    ||| c == '\u{3000}'
}

pub(crate) fn is_unicode_ws(c: char) -> (r: bool)
    ensures
        r == unicode_ws(c),
{
    c == '\u{0009}' || c == '\u{000A}' || c == '\u{000B}' || c == '\u{000C}' || c == '\u{000D}'
        || c == ' ' || c == '\u{0085}' || c == '\u{00A0}' || c == '\u{1680}' || c == '\u{2000}'
        || c == '\u{2001}' || c == '\u{2002}' || c == '\u{2003}' || c == '\u{2004}'
        || c == '\u{2005}' || c == '\u{2006}' || c == '\u{2007}' || c == '\u{2008}'
        || c == '\u{2009}' || c == '\u{200A}' || c == '\u{2028}' || c == '\u{2029}'
        || c == '\u{202F}' || c == '\u{205F}' || c == '\u{3000}'
}

/// Nothing but whitespace in `[a, b)`.
pub open spec fn all_ws(s: Seq<char>, a: int, b: int) -> bool {
    forall|k: int| a <= k < b ==> unicode_ws(#[trigger] s[k])
}

/// The hidden-text span of a match: the body up to the hint separator, if
/// one is present.
pub open spec fn match_text_end(s: Seq<char>, m: (int, int, int, int)) -> int {
    match hint_pos(s, m.2, m.3) {
        Some(h) => h,
        None => m.3,
    }
}

/// The match's number is positive and fits in `u32`.
pub open spec fn match_number_ok(s: Seq<char>, m: (int, int, int, int)) -> bool {
    1 <= digits_value(s, m.0, m.1) <= u32::MAX
}

/// The match parses cleanly: a valid number and a hidden text that is not
/// pure whitespace.
pub open spec fn match_valid(s: Seq<char>, m: (int, int, int, int)) -> bool {
    match_number_ok(s, m) && !all_ws(s, m.2, match_text_end(s, m))
}

/// The index of the first match the parser rejects, or the match count if
/// it accepts them all.
pub open spec fn first_invalid_idx(s: Seq<char>, ms: Seq<(int, int, int, int)>) -> int
    decreases ms.len(),
{
    if ms.len() == 0 {
        0
    } else if !match_valid(s, ms[0]) {
        0
    } else {
        1 + first_invalid_idx(s, ms.drop_first())
    }
}

/// Balanced `{{`/`}}` pairs when scanning from `i` at the given depth.
pub open spec fn braces_ok(s: Seq<char>, i: int, depth: int) -> bool
    decreases s.len() - i when 0 <= i <= s.len()
{
    if i >= s.len() {
        depth == 0
    } else if i + 1 < s.len() && s[i] == '{' && s[i + 1] == '{' {
        braces_ok(s, i + 2, depth + 1)
    } else if i + 1 < s.len() && s[i] == '}' && s[i + 1] == '}' {
        depth >= 1 && braces_ok(s, i + 2, depth - 1)
    } else {
        braces_ok(s, i + 1, depth)
    }
}

/// No `{{` pair opens inside another when scanning from `i` at the given
/// depth.
pub open spec fn nesting_ok(s: Seq<char>, i: int, depth: int) -> bool
    decreases s.len() - i when 0 <= i <= s.len()
{
    if i >= s.len() {
        true
    } else if i + 1 < s.len() && s[i] == '{' && s[i + 1] == '{' {
        depth + 1 <= 1 && nesting_ok(s, i + 2, depth + 1)
    } else if i + 1 < s.len() && s[i] == '}' && s[i + 1] == '}' {
        nesting_ok(s, i + 2, depth - 1)
    } else {
        nesting_ok(s, i + 1, depth)
    }
}

/// The text parses cleanly: balanced, unnested braces and only valid
/// deletions.
pub open spec fn parse_ok(s: Seq<char>) -> bool {
    &&& braces_ok(s, 0, 0)
    &&& nesting_ok(s, 0, 0)
    &&& first_invalid_idx(s, cloze_matches(s)) == cloze_matches(s).len()
}

/// The segment records exactly the match `m` of `s`.
pub open spec fn seg_matches(s: Seq<char>, seg: ClozeSegment, m: (int, int, int, int)) -> bool {
    &&& seg.start_position == m.0 - 3
    &&& seg.end_position == m.3 + 2
    &&& seg.cloze_number as int == digits_value(s, m.0, m.1)
    &&& seg.text@ == s.subrange(m.2, match_text_end(s, m))
    &&& match hint_pos(s, m.2, m.3) {
        Some(h) => seg.hint matches Some(hs) && hs@ == s.subrange(h + 2, m.3),
        None => seg.hint is None,
    }
}

proof fn lemma_first_invalid_complete(s: Seq<char>, ms: Seq<(int, int, int, int)>)
    requires
        first_invalid_idx(s, ms) == ms.len(),
    ensures
        forall|k: int| 0 <= k < ms.len() ==> match_valid(s, #[trigger] ms[k]),
    decreases ms.len(),
{
    if ms.len() > 0 {
        lemma_first_invalid_complete(s, ms.drop_first());
        assert forall|k: int| 0 <= k < ms.len() implies match_valid(s, #[trigger] ms[k]) by {
            if k > 0 {
                assert(ms.drop_first()[k - 1] == ms[k]);
            }
        }
    }
}

proof fn lemma_first_invalid_all_valid(s: Seq<char>, ms: Seq<(int, int, int, int)>)
    requires
        forall|k: int| 0 <= k < ms.len() ==> match_valid(s, #[trigger] ms[k]),
    ensures
        first_invalid_idx(s, ms) == ms.len(),
    decreases ms.len(),
{
    if ms.len() > 0 {
        assert(match_valid(s, ms[0]));
        lemma_first_invalid_all_valid(s, ms.drop_first());
    }
}

proof fn lemma_first_invalid_concat(
    s: Seq<char>,
    pm: Seq<(int, int, int, int)>,
    rest: Seq<(int, int, int, int)>,
)
    requires
        forall|k: int| 0 <= k < pm.len() ==> match_valid(s, #[trigger] pm[k]),
        rest.len() > 0,
        !match_valid(s, rest[0]),
    ensures
        first_invalid_idx(s, pm + rest) == pm.len(),
    decreases pm.len(),
{
    if pm.len() == 0 {
        assert(pm + rest =~= rest);
    } else {
        assert((pm + rest)[0] == pm[0]);
        assert((pm + rest).drop_first() =~= pm.drop_first() + rest);
        lemma_first_invalid_concat(s, pm.drop_first(), rest);
    }
}

/// Looks for a deletion form starting exactly at `pos`.
fn try_match_at(chars: &Vec<char>, pos: usize) -> (r: Option<(usize, usize, usize, usize)>)
    requires
        pos <= chars@.len(),
    ensures
        match r {
            Some(m) => try_match(chars@, pos as int) == Some(
                (m.0 as int, m.1 as int, m.2 as int, m.3 as int),
            ),
            None => try_match(chars@, pos as int) is None,
        },
{
    let n = chars.len();
    if !(n >= 3 && pos <= n - 3 && chars[pos] == '{' && chars[pos + 1] == '{' && chars[pos + 2]
        == 'c') {
        return None;
    }
    let d0 = pos + 3;
    let mut d1 = d0;
    while d1 < n && (chars[d1] as u32) >= 0x30 && (chars[d1] as u32) <= 0x39
        invariant
            d0 <= d1 <= n,
            n == chars@.len(),
            digit_run_end(chars@, d0 as int) == digit_run_end(chars@, d1 as int),
        decreases n - d1,
    {
        d1 = d1 + 1;
    }
    proof {
        assert(digit_run_end(chars@, d0 as int) == d1 as int);
    }
    if d1 == d0 {
        return None;
    }
    if !(d1 < n && n - d1 > 1 && chars[d1] == ':' && chars[d1 + 1] == ':') {
        return None;
    }
    let b0 = d1 + 2;
    let mut b1 = b0;
    while b1 < n && chars[b1] != '}'
        invariant
            b0 <= b1 <= n,
            n == chars@.len(),
            find_brace(chars@, b0 as int) == find_brace(chars@, b1 as int),
        decreases n - b1,
    {
        b1 = b1 + 1;
    }
    if b1 >= n {
        proof {
            assert(find_brace(chars@, b1 as int) is None);
        }
        return None;
    }
    proof {
        assert(find_brace(chars@, b1 as int) == Some(b1 as int));
    }
    if n - b1 > 1 && chars[b1 + 1] == '}' {
        Some((d0, d1, b0, b1))
    } else {
        None
    }
}

/// Copies the character span `[a, b)` into a fresh string.
fn span_to_string(chars: &Vec<char>, a: usize, b: usize) -> (r: String)
    requires
        a <= b <= chars@.len(),
    ensures
        r@ == chars@.subrange(a as int, b as int),
{
    let mut piece: Vec<char> = Vec::new();
    let mut k = a;
    while k < b
        invariant
            a <= k <= b <= chars@.len(),
            piece@ == chars@.subrange(a as int, k as int),
        decreases b - k,
    {
        piece.push(chars[k]);
        proof {
            assert(chars@.subrange(a as int, k + 1) =~= chars@.subrange(a as int, k as int).push(
                chars@[k as int],
            ));
        }
        k = k + 1;
    }
    chars_to_string(&piece)
}

/// The parser for cloze markup.
pub struct ClozeParser;

impl ClozeParser {
    /// Parses a text into its deletions, rejecting unbalanced or nested
    /// braces, non-positive or oversized numbers, and whitespace-only
    /// hidden text — each reported for the first offender, scanning left to
    /// right.
    pub fn parse(text: &str) -> (result: Result<ParsedCloze, ClozeParseError>)
        ensures
            result is Ok <==> parse_ok(text@),
            (result matches Err(e) && e is UnmatchedBraces) <==> !braces_ok(text@, 0, 0),
            (result matches Err(e) && e is NestedClozes) <==> (braces_ok(text@, 0, 0)
                && !nesting_ok(text@, 0, 0)),
            ({
                let ms = cloze_matches(text@);
                let k = first_invalid_idx(text@, ms);
                &&& (result matches Err(e) && e is InvalidClozeNumber) <==> (braces_ok(text@, 0, 0)
                    && nesting_ok(text@, 0, 0) && k < ms.len() && !match_number_ok(text@, ms[k]))
                &&& (result matches Err(e) && e is EmptyCloze) <==> (braces_ok(text@, 0, 0)
                    && nesting_ok(text@, 0, 0) && k < ms.len() && match_number_ok(text@, ms[k]))
                &&& result matches Err(ClozeParseError::InvalidClozeNumber(ds)) ==> ds@
                    == text@.subrange(ms[k].0, ms[k].1)
            }),
            result matches Ok(p) ==> {
                let ms = cloze_matches(text@);
                &&& p.original_text@ == text@
                &&& p.segments@.len() == ms.len()
                &&& forall|k: int|
                    0 <= k < ms.len() ==> seg_matches(text@, #[trigger] p.segments@[k], ms[k])
            },
    {
        let chars = string_chars(text);
        let ghost sv = text@;
        let n = chars.len();

        // balanced braces
        let mut i: usize = 0;
        let mut depth: usize = 0;
        while i < n
            invariant
                0 <= i <= n,
                sv == text@,
                chars@ == sv,
                n == sv.len(),
                depth <= i,
                braces_ok(sv, 0, 0) == braces_ok(sv, i as int, depth as int),
            decreases n - i,
        {
            if i + 1 < n && chars[i] == '{' && chars[i + 1] == '{' {
                depth = depth + 1;
                i = i + 2;
            } else if i + 1 < n && chars[i] == '}' && chars[i + 1] == '}' {
                if depth == 0 {
                    return Err(ClozeParseError::UnmatchedBraces);
                }
                depth = depth - 1;
                i = i + 2;
            } else {
                i = i + 1;
            }
        }
        if depth != 0 {
            return Err(ClozeParseError::UnmatchedBraces);
        }
        proof {
            assert(braces_ok(sv, 0, 0));
        }

        // no nesting
        let mut i2: usize = 0;
        let mut depth2: i128 = 0;
        while i2 < n
            invariant
                0 <= i2 <= n,
                sv == text@,
                chars@ == sv,
                n == sv.len(),
                -(i2 as int) <= depth2 as int <= 1,
                braces_ok(sv, 0, 0),
                nesting_ok(sv, 0, 0) == nesting_ok(sv, i2 as int, depth2 as int),
            decreases n - i2,
        {
            if i2 + 1 < n && chars[i2] == '{' && chars[i2 + 1] == '{' {
                if depth2 >= 1 {
                    return Err(ClozeParseError::NestedClozes);
                }
                depth2 = depth2 + 1;
                i2 = i2 + 2;
            } else if i2 + 1 < n && chars[i2] == '}' && chars[i2 + 1] == '}' {
                depth2 = depth2 - 1;
                i2 = i2 + 2;
            } else {
                i2 = i2 + 1;
            }
        }
        proof {
            assert(nesting_ok(sv, 0, 0));
        }

        // collect the deletions
        let mut segments: Vec<ClozeSegment> = Vec::new();
        let ghost mut pm: Seq<(int, int, int, int)> = Seq::empty();
        let mut pos: usize = 0;
        proof {
            assert(pm + matches_from(sv, 0) =~= cloze_matches(sv));
        }
        while pos < n
            invariant
                0 <= pos <= n,
                sv == text@,
                chars@ == sv,
                n == sv.len(),
                braces_ok(sv, 0, 0),
                nesting_ok(sv, 0, 0),
                pm + matches_from(sv, pos as int) =~= cloze_matches(sv),
                forall|k: int| 0 <= k < pm.len() ==> match_valid(sv, #[trigger] pm[k]),
                segments@.len() == pm.len(),
                forall|k: int|
                    0 <= k < pm.len() ==> seg_matches(sv, #[trigger] segments@[k], pm[k]),
            decreases n - pos,
        {
            let m = try_match_at(&chars, pos);
            match m {
                None => {
                    pos = pos + 1;
                },
                Some((d0, d1, b0, b1)) => {
                    let ghost gm = (d0 as int, d1 as int, b0 as int, b1 as int);
                    proof {
                        lemma_try_match_bounds(sv, pos as int);
                        assert(matches_from(sv, pos as int) =~= seq![gm] + matches_from(
                            sv,
                            b1 as int + 2,
                        ));
                        lemma_digit_run_end(sv, d0 as int);
                    }

                    // the number
                    let mut val: u64 = 0;
                    let mut t = d0;
                    let mut too_big: bool = false;
                    while t < d1 && !too_big
                        invariant
                            d0 <= t <= d1 <= n,
                            chars@ == sv,
                            n == sv.len(),
                            digit_run_end(sv, d0 as int) == d1 as int,
                            forall|k: int| d0 <= k < d1 ==> is_digit(#[trigger] sv[k]),
                            !too_big ==> val <= u32::MAX && val as int == digits_value(
                                sv,
                                d0 as int,
                                t as int,
                            ),
                            too_big ==> digits_value(sv, d0 as int, t as int) > u32::MAX,
                        decreases d1 - t,
                    {
                        let d = (chars[t] as u32) - 0x30;
                        proof {
                            assert(digits_value(sv, d0 as int, t as int + 1) == digits_value(
                                sv,
                                d0 as int,
                                t as int,
                            ) * 10 + digit_val(sv[t as int]));
                        }
                        val = val * 10 + (d as u64);
                        if val > 0xFFFF_FFFF {
                            too_big = true;
                        }
                        t = t + 1;
                    }
                    if too_big || val == 0 {
                        proof {
                            if too_big {
                                lemma_digits_value_monotone(sv, d0 as int, t as int, d1 as int);
                                assert(!match_number_ok(sv, gm));
                            } else {
                                lemma_digits_value_monotone(sv, d0 as int, d1 as int, d1 as int);
                                assert(digits_value(sv, d0 as int, d1 as int) == 0);
                                assert(!match_number_ok(sv, gm));
                            }
                            lemma_first_invalid_concat(sv, pm, matches_from(sv, pos as int));
                            assert((pm + matches_from(sv, pos as int))[pm.len() as int] == gm);
                        }
                        let ds = span_to_string(&chars, d0, d1);
                        return Err(ClozeParseError::InvalidClozeNumber(ds));
                    }
                    let number = val as u32;

                    // the optional hint
                    let mut h = b0;
                    let mut hint_found: bool = false;
                    while b1 - h > 2 && !(chars[h] == ':' && chars[h + 1] == ':')
                        invariant
                            b0 <= h <= b1 <= n,
                            chars@ == sv,
                            n == sv.len(),
                            hint_pos(sv, b0 as int, b1 as int) == hint_pos(
                                sv,
                                h as int,
                                b1 as int,
                            ),
                        decreases b1 - h,
                    {
                        h = h + 1;
                    }
                    let text_end: usize;
                    if b1 - h > 2 {
                        hint_found = true;
                        text_end = h;
                        proof {
                            assert(hint_pos(sv, b0 as int, b1 as int) == Some(h as int));
                        }
                    } else {
                        text_end = b1;
                        proof {
                            assert(hint_pos(sv, b0 as int, b1 as int) is None);
                        }
                    }

                    // the hidden text must say something
                    let mut w = b0;
                    let mut non_ws: bool = false;
                    while w < text_end && !non_ws
                        invariant
                            b0 <= w <= text_end <= n,
                            chars@ == sv,
                            n == sv.len(),
                            !non_ws ==> all_ws(sv, b0 as int, w as int),
                            non_ws ==> !all_ws(sv, b0 as int, text_end as int),
                        decreases text_end - w,
                    {
                        if !is_unicode_ws(chars[w]) {
                            proof {
                                assert(!unicode_ws(sv[w as int]));
                                assert(!all_ws(sv, b0 as int, text_end as int));
                            }
                            non_ws = true;
                        }
                        w = w + 1;
                    }
                    if !non_ws {
                        proof {
                            assert(all_ws(sv, gm.2, match_text_end(sv, gm)));
                            assert(!match_valid(sv, gm));
                            lemma_first_invalid_concat(sv, pm, matches_from(sv, pos as int));
                            assert((pm + matches_from(sv, pos as int))[pm.len() as int] == gm);
                        }
                        return Err(ClozeParseError::EmptyCloze);
                    }

                    let seg_text = span_to_string(&chars, b0, text_end);
                    let hint = if hint_found {
                        Some(span_to_string(&chars, h + 2, b1))
                    } else {
                        None
                    };
                    let ghost old_pm = pm;
                    let ghost old_segments = segments@;
                    segments.push(
                        ClozeSegment {
                            cloze_number: number,
                            text: seg_text,
                            hint,
                            start_position: pos,
                            end_position: b1 + 2,
                        },
                    );
                    proof {
                        pm = old_pm.push(gm);
                        assert(seg_matches(sv, segments@[old_pm.len() as int], gm));
                        assert(pm + matches_from(sv, b1 as int + 2) =~= old_pm + matches_from(
                            sv,
                            pos as int,
                        ));
                        assert(forall|k: int|
                            0 <= k < old_pm.len() ==> #[trigger] segments@[k] == old_segments[k]);
                    }
                    pos = b1 + 2;
                },
            }
        }
        proof {
            assert(matches_from(sv, pos as int) =~= Seq::<(int, int, int, int)>::empty());
            assert(pm =~= cloze_matches(sv));
            lemma_first_invalid_all_valid(sv, pm);
        }
        Ok(ParsedCloze { original_text: text.to_owned(), segments })
    }

    /// The distinct deletion numbers of the text, in increasing order.
    #[verifier::rlimit(50)]
    pub fn extract_cloze_numbers(text: &str) -> (result: Result<Vec<u32>, ClozeParseError>)
        ensures
            result is Ok <==> parse_ok(text@),
            result matches Ok(nums) ==> {
                let ms = cloze_matches(text@);
                &&& forall|a: int, b: int| 0 <= a < b < nums@.len() ==> nums@[a] < nums@[b]
                &&& forall|v: u32|
                    nums@.contains(v) <==> exists|k: int|
                        0 <= k < ms.len() && digits_value(text@, (#[trigger] ms[k]).0, ms[k].1)
                            == v as int
            },
    {
        let parsed = match Self::parse(text) {
            Ok(p) => p,
            Err(e) => {
                return Err(e);
            },
        };
        let ghost sv = text@;
        let ghost ms = cloze_matches(sv);
        let mut nums: Vec<u32> = Vec::new();
        let mut i: usize = 0;
        while i < parsed.segments.len()
            invariant
                0 <= i <= parsed.segments@.len(),
                parsed.segments@.len() == ms.len(),
                forall|k: int|
                    0 <= k < ms.len() ==> seg_matches(sv, #[trigger] parsed.segments@[k], ms[k]),
                forall|a: int, b: int| 0 <= a < b < nums@.len() ==> nums@[a] < nums@[b],
                forall|v: u32|
                    nums@.contains(v) <==> exists|k: int|
                        0 <= k < i && digits_value(sv, (#[trigger] ms[k]).0, ms[k].1) == v as int,
            decreases parsed.segments@.len() - i,
        {
            let v = parsed.segments[i].cloze_number;
            proof {
                assert(seg_matches(sv, parsed.segments@[i as int], ms[i as int]));
                assert(digits_value(sv, ms[i as int].0, ms[i as int].1) == v as int);
            }
            let mut idx: usize = 0;
            while idx < nums.len() && nums[idx] < v
                invariant
                    0 <= idx <= nums@.len(),
                    forall|a: int, b: int| 0 <= a < b < nums@.len() ==> nums@[a] < nums@[b],
                    forall|a: int| 0 <= a < idx ==> nums@[a] < v,
                decreases nums@.len() - idx,
            {
                idx = idx + 1;
            }
            let ghost old_nums = nums@;
            if idx < nums.len() && nums[idx] == v {
                proof {
                    assert(nums@.contains(v));
                    assert forall|w: u32| nums@.contains(w) <==> (exists|k: int|
                        0 <= k < i + 1 && digits_value(sv, (#[trigger] ms[k]).0, ms[k].1)
                            == w as int) by {
                        if nums@.contains(w) {
                        } else {
                            if exists|k: int|
                                0 <= k < i + 1 && digits_value(sv, (#[trigger] ms[k]).0, ms[k].1)
                                    == w as int {
                                let k = choose|k: int|
                                    0 <= k < i + 1 && digits_value(
                                        sv,
                                        (#[trigger] ms[k]).0,
                                        ms[k].1,
                                    ) == w as int;
                                assert(k < i || w == v);
                            }
                        }
                    }
                }
            } else {
                nums.insert(idx, v);
                proof {
                    old_nums.insert_ensures(idx as int, v);
                    assert(nums@ =~= old_nums.insert(idx as int, v));
                    assert forall|a: int, b: int| 0 <= a < b < nums@.len() implies nums@[a]
                        < nums@[b] by {
                        if b < idx {
                            assert(nums@[a] == old_nums[a] && nums@[b] == old_nums[b]);
                        } else if a < idx && b == idx {
                            assert(nums@[a] == old_nums[a]);
                        } else if a < idx {
                            assert(nums@[a] == old_nums[a] && nums@[b] == old_nums[b - 1]);
                            if idx < old_nums.len() {
                                assert(v != old_nums[idx as int]);
                                assert(v <= old_nums[idx as int]);
                            }
                            assert(old_nums[b - 1] >= v || b - 1 == idx - 1);
                            if b - 1 >= idx {
                                assert(old_nums[idx as int] <= old_nums[b - 1] || idx as int == b
                                    - 1);
                            }
                        } else if a == idx {
                            assert(nums@[b] == old_nums[b - 1]);
                            assert(b - 1 >= idx);
                            if idx < old_nums.len() {
                                assert(old_nums[idx as int] <= old_nums[b - 1]);
                                assert(v < old_nums[idx as int] || v == old_nums[idx as int]);
                                assert(v != old_nums[idx as int]);
                            }
                        } else {
                            assert(nums@[a] == old_nums[a - 1] && nums@[b] == old_nums[b - 1]);
                        }
                    }
                    assert forall|w: u32| nums@.contains(w) <==> (exists|k: int|
                        0 <= k < i + 1 && digits_value(sv, (#[trigger] ms[k]).0, ms[k].1)
                            == w as int) by {
                        if w == v {
                            assert(nums@[idx as int] == v);
                            assert(nums@.contains(v));
                        } else {
                            assert(nums@.contains(w) == old_nums.contains(w)) by {
                                if nums@.contains(w) {
                                    let a = choose|a: int|
                                        0 <= a < nums@.len() && nums@[a] == w;
                                    if a < idx {
                                        assert(old_nums[a] == w);
                                    } else {
                                        assert(old_nums[a - 1] == w);
                                    }
                                } else {
                                    if old_nums.contains(w) {
                                        let a = choose|a: int|
                                            0 <= a < old_nums.len() && old_nums[a] == w;
                                        if a < idx {
                                            assert(nums@[a] == w);
                                        } else {
                                            assert(nums@[a + 1] == w);
                                        }
                                    }
                                }
                            }
                            if exists|k: int|
                                0 <= k < i + 1 && digits_value(sv, (#[trigger] ms[k]).0, ms[k].1)
                                    == w as int {
                                let k = choose|k: int|
                                    0 <= k < i + 1 && digits_value(
                                        sv,
                                        (#[trigger] ms[k]).0,
                                        ms[k].1,
                                    ) == w as int;
                                assert(k < i);
                            }
                        }
                    }
                }
            }
            i = i + 1;
        }
        Ok(nums)
    }

    /// Whether the text holds any deletion form at all, well-formed or not.
    pub fn has_cloze_deletions(text: &str) -> (r: bool)
        ensures
            r == (cloze_matches(text@).len() > 0),
    {
        let chars = string_chars(text);
        let n = chars.len();
        let mut pos: usize = 0;
        while pos < n
            invariant
                0 <= pos <= n,
                chars@ == text@,
                n == text@.len(),
                cloze_matches(text@) =~= matches_from(text@, pos as int),
            decreases n - pos,
        {
            if let Some(m) = try_match_at(&chars, pos) {
                proof {
                    assert(matches_from(text@, pos as int).len() > 0);
                }
                return true;
            }
            pos = pos + 1;
        }
        proof {
            assert(matches_from(text@, pos as int) =~= Seq::<(int, int, int, int)>::empty());
        }
        false
    }

    /// How many distinct deletion numbers the text uses; zero when it does
    /// not parse.
    pub fn count_cloze_deletions(text: &str) -> (count: usize)
        ensures
            !parse_ok(text@) ==> count == 0,
            parse_ok(text@) ==> count == distinct_numbers(text@).len(),
    {
        match Self::extract_cloze_numbers(text) {
            Ok(numbers) => {
                proof {
                    lemma_first_invalid_complete(text@, cloze_matches(text@));
                    assert forall|k: int| 0 <= k < cloze_matches(text@).len() implies 0
                        <= digits_value(
                        text@,
                        (#[trigger] cloze_matches(text@)[k]).0,
                        cloze_matches(text@)[k].1,
                    ) <= u32::MAX by {
                        assert(match_valid(text@, cloze_matches(text@)[k]));
                    }
                    lemma_sorted_unique_count(text@, numbers@);
                }
                numbers.len()
            },
            Err(_) => 0,
        }
    }
}

/// The set of deletion numbers the text's matches use.
pub open spec fn distinct_numbers(s: Seq<char>) -> Set<int> {
    Set::new(
        |v: int|
            exists|k: int|
                0 <= k < cloze_matches(s).len() && digits_value(
                    s,
                    (#[trigger] cloze_matches(s)[k]).0,
                    cloze_matches(s)[k].1,
                ) == v,
    )
}

proof fn lemma_sorted_unique_count(s: Seq<char>, nums: Seq<u32>)
    requires
        forall|a: int, b: int| 0 <= a < b < nums.len() ==> nums[a] < nums[b],
        forall|v: u32|
            nums.contains(v) <==> exists|k: int|
                0 <= k < cloze_matches(s).len() && digits_value(
                    s,
                    (#[trigger] cloze_matches(s)[k]).0,
                    cloze_matches(s)[k].1,
                ) == v as int,
        forall|k: int|
            0 <= k < cloze_matches(s).len() ==> 0 <= digits_value(
                s,
                (#[trigger] cloze_matches(s)[k]).0,
                cloze_matches(s)[k].1,
            ) <= u32::MAX,
    ensures
        distinct_numbers(s).finite(),
        distinct_numbers(s).len() == nums.len(),
{
    let values = Set::new(|v: u32| nums.contains(v));
    assert forall|v: int| distinct_numbers(s).contains(v) implies values.contains(v as u32)
        && 0 <= v <= u32::MAX by {
        let k = choose|k: int|
            0 <= k < cloze_matches(s).len() && digits_value(
                s,
                (#[trigger] cloze_matches(s)[k]).0,
                cloze_matches(s)[k].1,
            ) == v;
        assert(nums.contains(v as u32));
    }
    assert forall|v: u32| values.contains(v) implies distinct_numbers(s).contains(v as int) by {
        assert(nums.contains(v));
    }
    lemma_sorted_seq_set_len(nums);
    let f = |v: u32| v as int;
    assert(vstd::relations::injective_on(f, values)) by {
        assert(forall|x1: u32, x2: u32| #[trigger] f(x1) == #[trigger] f(x2) ==> x1 == x2);
    }
    assert(values.map(f) =~= distinct_numbers(s)) by {
        assert forall|w: int| values.map(f).contains(w) implies distinct_numbers(s).contains(
            w,
        ) by {
            let v = choose|v: u32| values.contains(v) && f(v) == w;
            assert(distinct_numbers(s).contains(v as int));
        }
        assert forall|w: int| distinct_numbers(s).contains(w) implies values.map(f).contains(
            w,
        ) by {
            assert(values.contains(w as u32));
            assert(values.map(f).contains(f(w as u32)));
        }
    }
    vstd::set_lib::lemma_map_size(values, distinct_numbers(s), f);
}

proof fn lemma_sorted_seq_set_len(nums: Seq<u32>)
    requires
        forall|a: int, b: int| 0 <= a < b < nums.len() ==> nums[a] < nums[b],
    ensures
        Set::new(|v: u32| nums.contains(v)).finite(),
        Set::new(|v: u32| nums.contains(v)).len() == nums.len(),
    decreases nums.len(),
{
    let values = Set::new(|v: u32| nums.contains(v));
    if nums.len() == 0 {
        assert(values =~= Set::<u32>::empty());
    } else {
        let prefix = nums.drop_last();
        lemma_sorted_seq_set_len(prefix);
        let pv = Set::new(|v: u32| prefix.contains(v));
        let last = nums.last();
        assert(!pv.contains(last)) by {
            if prefix.contains(last) {
                let a = choose|a: int| 0 <= a < prefix.len() && prefix[a] == last;
                assert(nums[a] == last);
                assert(nums[a] < nums[nums.len() - 1]);
            }
        }
        assert(values =~= pv.insert(last)) by {
            assert forall|v: u32| values.contains(v) implies pv.insert(last).contains(v) by {
                let a = choose|a: int| 0 <= a < nums.len() && nums[a] == v;
                if a < nums.len() - 1 {
                    assert(prefix[a] == v);
                    assert(prefix.contains(v));
                }
            }
            assert forall|v: u32| pv.insert(last).contains(v) implies values.contains(v) by {
                if v == last {
                    assert(nums[nums.len() - 1] == v);
                } else {
                    let a = choose|a: int| 0 <= a < prefix.len() && prefix[a] == v;
                    assert(nums[a] == v);
                }
            }
        }
    }
}

} // verus!
