//! Cleanup of imported article text: dropping `[12]`-style reference
//! indicators and recognising image links by their file extension.

use vstd::prelude::*;
use crate::cloze_parser::digit_run_end;
use crate::cloze_parser::lemma_digit_run_end;
use crate::text_units::chars_to_string;
use crate::text_units::string_chars;

verus! {

/// A reference indicator `[digits]` starts at `i`: the position just past
/// its closing bracket, if the form is complete.
pub open spec fn ref_end(s: Seq<char>, i: int) -> Option<int> {
    if 0 <= i < s.len() && s[i] == '[' {
        let j = digit_run_end(s, i + 1);
        if j > i + 1 && j < s.len() && s[j] == ']' {
            Some(j + 1)
        } else {
            None
        }
    } else {
        None
    }
}

/// The text from `i` on with every `[digits]` form removed, scanning left
/// to right.
pub open spec fn strip_refs_from(s: Seq<char>, i: int) -> Seq<char>
    decreases s.len() - i when 0 <= i <= s.len() via strip_refs_from_decreases
{
    if i >= s.len() {
        Seq::empty()
    } else {
        match ref_end(s, i) {
            Some(j) => strip_refs_from(s, j),
            None => seq![s[i]] + strip_refs_from(s, i + 1),
        }
    }
}

#[via_fn]
proof fn strip_refs_from_decreases(s: Seq<char>, i: int) {
    if 0 <= i < s.len() && ref_end(s, i) is Some {
        lemma_digit_run_end(s, i + 1);
    }
}

/// The text with every numeric reference indicator `[12]` removed;
/// non-numeric brackets stay.
pub fn strip_reference_indicators(text: &str) -> (r: String)
    ensures
        r@ == strip_refs_from(text@, 0),
{
    let chars = string_chars(text);
    let n = chars.len();
    let mut out: Vec<char> = Vec::new();
    let mut i: usize = 0;
    while i < n
        invariant
            0 <= i <= n,
            chars@ == text@,
            n == text@.len(),
            out@ + strip_refs_from(text@, i as int) =~= strip_refs_from(text@, 0),
        decreases n - i,
    {
        if chars[i] == '[' {
            let mut j = i + 1;
            while j < n && (chars[j] as u32) >= 0x30 && (chars[j] as u32) <= 0x39
                invariant
                    i + 1 <= j <= n,
                    chars@ == text@,
                    n == text@.len(),
                    digit_run_end(text@, i as int + 1) == digit_run_end(text@, j as int),
                decreases n - j,
            {
                j = j + 1;
            }
            proof {
                assert(digit_run_end(text@, i as int + 1) == j as int);
            }
            if j > i + 1 && j < n && chars[j] == ']' {
                proof {
                    assert(ref_end(text@, i as int) == Some(j as int + 1));
                }
                i = j + 1;
            } else {
                proof {
                    assert(ref_end(text@, i as int) is None);
                }
                out.push(chars[i]);
                i = i + 1;
            }
        } else {
            proof {
                assert(ref_end(text@, i as int) is None);
            }
            out.push(chars[i]);
            i = i + 1;
        }
    }
    proof {
        assert(strip_refs_from(text@, n as int) =~= Seq::<char>::empty());
        assert(out@ =~= strip_refs_from(text@, 0));
    }
    chars_to_string(&out)
}

/// The characters match up to ASCII case: `p` is the expected lower-case
/// character.
pub open spec fn eq_ascii_ci(c: char, p: char) -> bool {
    c == p || (0x61 <= (p as u32) <= 0x7A && (c as u32) == (p as u32) - 0x20)
}

/// `s` ends with `pat`, compared ASCII-case-insensitively.
pub open spec fn ends_with_ci(s: Seq<char>, pat: Seq<char>) -> bool {
    s.len() >= pat.len() && forall|k: int|
        0 <= k < pat.len() ==> eq_ascii_ci(s[s.len() - pat.len() + k], #[trigger] pat[k])
}

fn check_suffix_ci(chars: &Vec<char>, pat: &str) -> (r: bool)
    ensures
        r == ends_with_ci(chars@, pat@),
{
    let pv = string_chars(pat);
    let n = chars.len();
    let m = pv.len();
    if n < m {
        return false;
    }
    let mut k: usize = 0;
    while k < m
        invariant
            0 <= k <= m <= n,
            chars@.len() == n,
            pv@ == pat@,
            m == pat@.len(),
            forall|t: int|
                0 <= t < k ==> eq_ascii_ci(chars@[n - m + t], #[trigger] pat@[t]),
        decreases m - k,
    {
        let c = chars[n - m + k];
        let p = pv[k];
        let matched = c == p || ((p as u32) >= 0x61 && (p as u32) <= 0x7A && (c as u32) == (
        p as u32) - 0x20);
        if !matched {
            proof {
                assert(!eq_ascii_ci(chars@[n - m + k], pat@[k as int]));
            }
            return false;
        }
        k = k + 1;
    }
    true
}

/// Whether the link points at an image file, by its extension, compared
/// without regard to ASCII letter case.
pub fn is_image_url(url: &str) -> (r: bool)
    ensures
        r == {
            ||| ends_with_ci(url@, ".jpg"@)
            ||| ends_with_ci(url@, ".jpeg"@)
            ||| ends_with_ci(url@, ".png"@)
            ||| ends_with_ci(url@, ".gif"@)
            ||| ends_with_ci(url@, ".svg"@)
            ||| ends_with_ci(url@, ".webp"@)
            ||| ends_with_ci(url@, ".bmp"@)
            ||| ends_with_ci(url@, ".ico"@)
        },
{
    let chars = string_chars(url);
    check_suffix_ci(&chars, ".jpg") || check_suffix_ci(&chars, ".jpeg") || check_suffix_ci(
        &chars,
        ".png",
    ) || check_suffix_ci(&chars, ".gif") || check_suffix_ci(&chars, ".svg") || check_suffix_ci(
        &chars,
        ".webp",
    ) || check_suffix_ci(&chars, ".bmp") || check_suffix_ci(&chars, ".ico")
}

/// The first line feed at or after `i`, or the end of the text.
pub open spec fn find_nl(s: Seq<char>, i: int) -> int
    decreases s.len() - i when 0 <= i <= s.len()
{
    if i >= s.len() {
        i
    } else if s[i] == '\n' {
        i
    } else {
        find_nl(s, i + 1)
    }
}

pub proof fn lemma_find_nl_bounds(s: Seq<char>, i: int)
    requires
        0 <= i <= s.len(),
    ensures
        i <= find_nl(s, i) <= s.len(),
    decreases s.len() - i,
{
    if i < s.len() && s[i] != '\n' {
        lemma_find_nl_bounds(s, i + 1);
    }
}

/// A line with a trailing carriage return loses it.
pub open spec fn strip_cr(l: Seq<char>) -> Seq<char> {
    if l.len() > 0 && l.last() == '\r' {
        l.drop_last()
    } else {
        l
    }
}

/// The lines of the text from `i` on: split at line feeds, each line losing
/// a trailing carriage return; a trailing line feed yields no final empty
/// line.
pub open spec fn split_lines_from(s: Seq<char>, i: int) -> Seq<Seq<char>>
    decreases s.len() - i when 0 <= i <= s.len() via split_lines_from_decreases
{
    if i >= s.len() {
        Seq::empty()
    } else {
        let e = find_nl(s, i);
        let line = strip_cr(s.subrange(i, e));
        if e >= s.len() {
            seq![line]
        } else {
            seq![line] + split_lines_from(s, e + 1)
        }
    }
}

#[via_fn]
proof fn split_lines_from_decreases(s: Seq<char>, i: int) {
    if 0 <= i < s.len() {
        lemma_find_nl_bounds(s, i);
    }
}

/// The lines of the text.
pub open spec fn split_lines(s: Seq<char>) -> Seq<Seq<char>> {
    split_lines_from(s, 0)
}

/// A section-header line of imported article text: it opens and closes with
/// a pair of `=` signs.
pub open spec fn is_header_line(l: Seq<char>) -> bool {
    l.len() >= 2 && l[0] == '=' && l[1] == '=' && l[l.len() - 1] == '=' && l[l.len() - 2] == '='
}

/// A character the section-title trim removes.
pub open spec fn title_trim_char(c: char) -> bool {
    c == '=' || c == ' '
}

pub open spec fn title_start(l: Seq<char>, i: int) -> int
    decreases l.len() - i when 0 <= i <= l.len()
{
    if i >= l.len() {
        i
    } else if title_trim_char(l[i]) {
        title_start(l, i + 1)
    } else {
        i
    }
}

pub open spec fn title_end(l: Seq<char>, lo: int, j: int) -> int
    decreases j - lo when 0 <= lo <= j <= l.len()
{
    if j <= lo {
        lo
    } else if title_trim_char(l[j - 1]) {
        title_end(l, lo, j - 1)
    } else {
        j
    }
}

/// A header line's title: the line with `=` signs and spaces trimmed from
/// both ends.
pub open spec fn title_of(l: Seq<char>) -> Seq<char> {
    let lo = title_start(l, 0);
    l.subrange(lo, title_end(l, lo, l.len() as int))
}

/// The section titles whose whole section is dropped from imported text.
pub open spec fn skip_title(t: Seq<char>) -> bool {
    ||| t == "External links"@
    ||| t == "See also"@
    ||| t == "References"@
    ||| t == "Notes"@
    ||| t == "Further reading"@
}

/// The next section-header line at or after `k`, or the line count.
pub open spec fn next_header(lines: Seq<Seq<char>>, k: int) -> int
    decreases lines.len() - k when 0 <= k <= lines.len()
{
    if k >= lines.len() {
        k
    } else if is_header_line(lines[k]) {
        k
    } else {
        next_header(lines, k + 1)
    }
}

pub proof fn lemma_next_header_bounds(lines: Seq<Seq<char>>, k: int)
    requires
        0 <= k <= lines.len(),
    ensures
        k <= next_header(lines, k) <= lines.len(),
    decreases lines.len() - k,
{
    if k < lines.len() && !is_header_line(lines[k]) {
        lemma_next_header_bounds(lines, k + 1);
    }
}

/// A line of nothing but whitespace.
pub open spec fn line_blank(l: Seq<char>) -> bool {
    forall|t: int| 0 <= t < l.len() ==> crate::cloze_parser::unicode_ws(#[trigger] l[t])
}

/// Some line of `[a, b)` says something.
pub open spec fn has_body(lines: Seq<Seq<char>>, a: int, b: int) -> bool {
    exists|k: int| a <= k < b && !line_blank(#[trigger] lines[k])
}

/// The lines kept from line `i` on: a section whose title is on the skip
/// list disappears, a section with nothing but blank lines disappears with
/// its header, everything else stays.
pub open spec fn clean_lines_from(lines: Seq<Seq<char>>, i: int) -> Seq<Seq<char>>
    decreases lines.len() - i when 0 <= i <= lines.len() via clean_lines_from_decreases
{
    if i >= lines.len() {
        Seq::empty()
    } else if is_header_line(lines[i]) {
        let j = next_header(lines, i + 1);
        let rest = clean_lines_from(lines, j);
        if skip_title(title_of(lines[i])) {
            rest
        } else if has_body(lines, i + 1, j) {
            lines.subrange(i, j) + rest
        } else {
            rest
        }
    } else {
        seq![lines[i]] + clean_lines_from(lines, i + 1)
    }
}

#[via_fn]
proof fn clean_lines_from_decreases(lines: Seq<Seq<char>>, i: int) {
    if 0 <= i < lines.len() && is_header_line(lines[i]) {
        lemma_next_header_bounds(lines, i + 1);
    }
}

/// The lines joined back together with line feeds between them.
pub open spec fn join_lines(lines: Seq<Seq<char>>) -> Seq<char>
    decreases lines.len(),
{
    if lines.len() == 0 {
        Seq::empty()
    } else if lines.len() == 1 {
        lines[0]
    } else {
        join_lines(lines.drop_last()) + seq!['\n'] + lines.last()
    }
}

/// The text with every run of three or more line feeds capped at two;
/// `run` counts the line feeds just before `i`.
pub open spec fn cap_newlines_from(s: Seq<char>, i: int, run: int) -> Seq<char>
    decreases s.len() - i when 0 <= i <= s.len()
{
    if i >= s.len() {
        Seq::empty()
    } else if s[i] == '\n' {
        if run >= 2 {
            cap_newlines_from(s, i + 1, run)
        } else {
            seq!['\n'] + cap_newlines_from(s, i + 1, run + 1)
        }
    } else {
        seq![s[i]] + cap_newlines_from(s, i + 1, 0)
    }
}

/// The first position of `s` at or after `i` holding something other than
/// whitespace.
pub open spec fn uws_start(s: Seq<char>, i: int) -> int
    decreases s.len() - i when 0 <= i <= s.len()
{
    if i >= s.len() {
        i
    } else if crate::cloze_parser::unicode_ws(s[i]) {
        uws_start(s, i + 1)
    } else {
        i
    }
}

pub open spec fn uws_end(s: Seq<char>, lo: int, j: int) -> int
    decreases j - lo when 0 <= lo <= j <= s.len()
{
    if j <= lo {
        lo
    } else if crate::cloze_parser::unicode_ws(s[j - 1]) {
        uws_end(s, lo, j - 1)
    } else {
        j
    }
}

/// `s` with surrounding whitespace removed.
pub open spec fn trim_ws(s: Seq<char>) -> Seq<char> {
    let lo = uws_start(s, 0);
    s.subrange(lo, uws_end(s, lo, s.len() as int))
}

/// What `clean_empty_sections` returns: the text split into lines, emptied
/// and skip-listed sections dropped, rejoined, blank runs capped, and the
/// whole trimmed.
pub open spec fn cleaned_sections(s: Seq<char>) -> Seq<char> {
    trim_ws(cap_newlines_from(join_lines(clean_lines_from(split_lines(s), 0)), 0, 0))
}

/// Splits text into its lines.
fn split_into_lines(chars: &Vec<char>) -> (lines: Vec<Vec<char>>)
    ensures
        lines@.map_values(|l: Vec<char>| l@) == split_lines(chars@),
{
    let sv = chars;
    let n = chars.len();
    let mut lines: Vec<Vec<char>> = Vec::new();
    let mut i: usize = 0;
    while i < n
        invariant
            0 <= i <= n,
            n == chars@.len(),
            lines@.map_values(|l: Vec<char>| l@) + split_lines_from(chars@, i as int)
                =~= split_lines(chars@),
        decreases n - i,
    {
        let mut e = i;
        while e < n && chars[e] != '\n'
            invariant
                i <= e <= n,
                n == chars@.len(),
                find_nl(chars@, i as int) == find_nl(chars@, e as int),
            decreases n - e,
        {
            e = e + 1;
        }
        proof {
            assert(find_nl(chars@, i as int) == e as int);
        }
        let line_end_pos = if e > i && chars[e - 1] == '\r' {
            e - 1
        } else {
            e
        };
        let mut line: Vec<char> = Vec::new();
        let mut k = i;
        while k < line_end_pos
            invariant
                i <= k <= line_end_pos <= n,
                n == chars@.len(),
                line@ == chars@.subrange(i as int, k as int),
            decreases line_end_pos - k,
        {
            line.push(chars[k]);
            proof {
                assert(chars@.subrange(i as int, k + 1) =~= chars@.subrange(
                    i as int,
                    k as int,
                ).push(chars@[k as int]));
            }
            k = k + 1;
        }
        proof {
            assert(line@ =~= strip_cr(chars@.subrange(i as int, e as int))) by {
                if e > i && chars@[e as int - 1] == '\r' {
                    assert(chars@.subrange(i as int, e as int).last() == '\r');
                    assert(chars@.subrange(i as int, e as int).drop_last() =~= chars@.subrange(
                        i as int,
                        e as int - 1,
                    ));
                } else {
                    if e > i {
                        assert(chars@.subrange(i as int, e as int).last() == chars@[e as int - 1]);
                    }
                }
            }
        }
        let ghost old_map = lines@.map_values(|l: Vec<char>| l@);
        lines.push(line);
        proof {
            assert(lines@.map_values(|l: Vec<char>| l@) =~= old_map.push(
                strip_cr(chars@.subrange(i as int, e as int)),
            ));
            if (e as int) < n as int {
                assert(split_lines_from(chars@, i as int) =~= seq![
                    strip_cr(chars@.subrange(i as int, e as int)),
                ] + split_lines_from(chars@, e as int + 1));
            } else {
                assert(split_lines_from(chars@, i as int) =~= seq![
                    strip_cr(chars@.subrange(i as int, e as int)),
                ]);
                assert(split_lines_from(chars@, n as int) =~= Seq::<Seq<char>>::empty());
            }
            assert(old_map.push(strip_cr(chars@.subrange(i as int, e as int))) =~= old_map + seq![
                strip_cr(chars@.subrange(i as int, e as int)),
            ]);
        }
        if e >= n {
            i = n;
        } else {
            i = e + 1;
        }
    }
    proof {
        assert(split_lines_from(chars@, n as int) =~= Seq::<Seq<char>>::empty());
        assert(lines@.map_values(|l: Vec<char>| l@) =~= split_lines(chars@));
    }
    lines
}

fn is_header_line_exec(line: &Vec<char>) -> (r: bool)
    ensures
        r == is_header_line(line@),
{
    let n = line.len();
    n >= 2 && line[0] == '=' && line[1] == '=' && line[n - 1] == '=' && line[n - 2] == '='
}

fn line_is_blank(line: &Vec<char>) -> (r: bool)
    ensures
        r == line_blank(line@),
{
    let n = line.len();
    let mut t: usize = 0;
    while t < n
        invariant
            0 <= t <= n,
            n == line@.len(),
            forall|u: int| 0 <= u < t ==> crate::cloze_parser::unicode_ws(#[trigger] line@[u]),
        decreases n - t,
    {
        if !crate::cloze_parser::is_unicode_ws(line[t]) {
            proof {
                assert(!crate::cloze_parser::unicode_ws(line@[t as int]));
            }
            return false;
        }
        t = t + 1;
    }
    true
}

fn title_equals(line: &Vec<char>, lo: usize, hi: usize, expected: &str) -> (r: bool)
    requires
        lo <= hi <= line@.len(),
    ensures
        r == (line@.subrange(lo as int, hi as int) == expected@),
{
    let ev = string_chars(expected);
    if hi - lo != ev.len() {
        proof {
            assert(line@.subrange(lo as int, hi as int).len() != expected@.len());
        }
        return false;
    }
    let m = ev.len();
    let mut k: usize = 0;
    while k < m
        invariant
            0 <= k <= m,
            lo + m == hi,
            hi <= line@.len(),
            ev@ == expected@,
            m == expected@.len(),
            forall|t: int| 0 <= t < k ==> line@[lo + t] == #[trigger] expected@[t],
        decreases m - k,
    {
        if line[lo + k] != ev[k] {
            proof {
                assert(line@.subrange(lo as int, hi as int)[k as int] != expected@[k as int]);
            }
            return false;
        }
        k = k + 1;
    }
    proof {
        assert(line@.subrange(lo as int, hi as int) =~= expected@);
    }
    true
}

fn should_skip_section(line: &Vec<char>) -> (r: bool)
    ensures
        r == skip_title(title_of(line@)),
{
    let n = line.len();
    let mut lo: usize = 0;
    while lo < n && (line[lo] == '=' || line[lo] == ' ')
        invariant
            0 <= lo <= n,
            n == line@.len(),
            title_start(line@, 0) == title_start(line@, lo as int),
        decreases n - lo,
    {
        lo = lo + 1;
    }
    proof {
        assert(title_start(line@, 0) == lo as int);
    }
    let mut hi: usize = n;
    while hi > lo && (line[hi - 1] == '=' || line[hi - 1] == ' ')
        invariant
            lo <= hi <= n,
            n == line@.len(),
            title_end(line@, lo as int, hi as int) == title_end(line@, lo as int, n as int),
        decreases hi,
    {
        hi = hi - 1;
    }
    proof {
        assert(title_end(line@, lo as int, n as int) == hi as int);
        assert(title_of(line@) == line@.subrange(lo as int, hi as int));
    }
    title_equals(line, lo, hi, "External links") || title_equals(line, lo, hi, "See also")
        || title_equals(line, lo, hi, "References") || title_equals(line, lo, hi, "Notes")
        || title_equals(line, lo, hi, "Further reading")
}

/// Drops sections whose title is on the import skip list and sections with
/// no content, collapses repeated blank lines, and trims the result.
pub fn clean_empty_sections(text: &str) -> (r: String)
    ensures
        r@ == cleaned_sections(text@),
{
    let chars = string_chars(text);
    let lines = split_into_lines(&chars);
    let ghost lv = split_lines(text@);
    let nl = lines.len();

    // choose the lines to keep
    let mut kept: Vec<Vec<char>> = Vec::new();
    let mut i: usize = 0;
    while i < nl
        invariant
            0 <= i <= nl,
            lines@.map_values(|l: Vec<char>| l@) == lv,
            nl == lv.len(),
            kept@.map_values(|l: Vec<char>| l@) + clean_lines_from(lv, i as int)
                =~= clean_lines_from(lv, 0),
        decreases nl - i,
    {
        if is_header_line_exec(&lines[i]) {
            let mut j = i + 1;
            while j < nl && !is_header_line_exec(&lines[j])
                invariant
                    i + 1 <= j <= nl,
                    lines@.map_values(|l: Vec<char>| l@) == lv,
                    nl == lv.len(),
                    next_header(lv, i as int + 1) == next_header(lv, j as int),
                decreases nl - j,
            {
                j = j + 1;
            }
            proof {
                assert(next_header(lv, i as int + 1) == j as int);
            }
            if should_skip_section(&lines[i]) {
                i = j;
            } else {
                let mut body: bool = false;
                let mut k = i + 1;
                while k < j && !body
                    invariant
                        i + 1 <= k <= j <= nl,
                        lines@.map_values(|l: Vec<char>| l@) == lv,
                        nl == lv.len(),
                        !body ==> !has_body(lv, i as int + 1, k as int),
                        body ==> has_body(lv, i as int + 1, j as int),
                    decreases j - k,
                {
                    if !line_is_blank(&lines[k]) {
                        proof {
                            assert(!line_blank(lv[k as int]));
                            assert(has_body(lv, i as int + 1, j as int));
                        }
                        body = true;
                    }
                    k = k + 1;
                }
                if body {
                    let mut t = i;
                    while t < j
                        invariant
                            i <= t <= j <= nl,
                            lines@.map_values(|l: Vec<char>| l@) == lv,
                            nl == lv.len(),
                            kept@.map_values(|l: Vec<char>| l@) + lv.subrange(t as int, j as int)
                                + clean_lines_from(lv, j as int) =~= clean_lines_from(lv, 0),
                        decreases j - t,
                    {
                        let ghost old_map = kept@.map_values(|l: Vec<char>| l@);
                        let mut copy: Vec<char> = Vec::new();
                        let m = lines[t].len();
                        let mut c: usize = 0;
                        while c < m
                            invariant
                                0 <= c <= m,
                                lines@.map_values(|l: Vec<char>| l@) == lv,
                                t < nl == lv.len(),
                                m == lv[t as int].len(),
                                copy@ == lv[t as int].take(c as int),
                            decreases m - c,
                        {
                            copy.push(lines[t][c]);
                            proof {
                                assert(lv[t as int].take(c + 1) =~= lv[t as int].take(
                                    c as int,
                                ).push(lv[t as int][c as int]));
                            }
                            c = c + 1;
                        }
                        kept.push(copy);
                        proof {
                            assert(lv[t as int].take(lv[t as int].len() as int) =~= lv[t as int]);
                            assert(kept@.map_values(|l: Vec<char>| l@) =~= old_map.push(
                                lv[t as int],
                            ));
                            assert(lv.subrange(t as int, j as int) =~= seq![lv[t as int]]
                                + lv.subrange(t as int + 1, j as int));
                            assert(old_map.push(lv[t as int]) =~= old_map + seq![lv[t as int]]);
                        }
                        t = t + 1;
                    }
                    proof {
                        assert(lv.subrange(j as int, j as int) =~= Seq::<Seq<char>>::empty());
                    }
                    i = j;
                } else {
                    i = j;
                }
            }
        } else {
            let ghost old_map = kept@.map_values(|l: Vec<char>| l@);
            let mut copy: Vec<char> = Vec::new();
            let m = lines[i].len();
            let mut c: usize = 0;
            while c < m
                invariant
                    0 <= c <= m,
                    lines@.map_values(|l: Vec<char>| l@) == lv,
                    i < nl == lv.len(),
                    m == lv[i as int].len(),
                    copy@ == lv[i as int].take(c as int),
                decreases m - c,
            {
                copy.push(lines[i][c]);
                proof {
                    assert(lv[i as int].take(c + 1) =~= lv[i as int].take(c as int).push(
                        lv[i as int][c as int],
                    ));
                }
                c = c + 1;
            }
            kept.push(copy);
            proof {
                assert(lv[i as int].take(lv[i as int].len() as int) =~= lv[i as int]);
                assert(kept@.map_values(|l: Vec<char>| l@) =~= old_map.push(lv[i as int]));
                assert(old_map.push(lv[i as int]) =~= old_map + seq![lv[i as int]]);
            }
            i = i + 1;
        }
    }
    proof {
        assert(clean_lines_from(lv, nl as int) =~= Seq::<Seq<char>>::empty());
        assert(kept@.map_values(|l: Vec<char>| l@) =~= clean_lines_from(lv, 0));
    }

    // join with line feeds
    let ghost kv = kept@.map_values(|l: Vec<char>| l@);
    let mut joined: Vec<char> = Vec::new();
    let mut q: usize = 0;
    while q < kept.len()
        invariant
            0 <= q <= kept@.len(),
            kept@.map_values(|l: Vec<char>| l@) == kv,
            joined@ == join_lines(kv.take(q as int)),
        decreases kept@.len() - q,
    {
        proof {
            assert(kv.take(q + 1).drop_last() =~= kv.take(q as int));
            assert(kv.take(q + 1).last() == kv[q as int]);
        }
        if q > 0 {
            joined.push('\n');
        }
        let m = kept[q].len();
        let mut c: usize = 0;
        let ghost base = joined@;
        while c < m
            invariant
                0 <= c <= m,
                kept@.map_values(|l: Vec<char>| l@) == kv,
                q < kv.len(),
                m == kv[q as int].len(),
                joined@ == base + kv[q as int].take(c as int),
            decreases m - c,
        {
            joined.push(kept[q][c]);
            proof {
                assert(kv[q as int].take(c + 1) =~= kv[q as int].take(c as int).push(
                    kv[q as int][c as int],
                ));
                assert(joined@ =~= base + kv[q as int].take(c + 1));
            }
            c = c + 1;
        }
        proof {
            assert(kv[q as int].take(kv[q as int].len() as int) =~= kv[q as int]);
            if q == 0 {
                assert(join_lines(kv.take(1int)) == kv[0]);
                assert(joined@ =~= join_lines(kv.take(1int)));
            } else {
                assert(joined@ =~= join_lines(kv.take(q as int)) + seq!['\n'] + kv[q as int]);
            }
        }
        q = q + 1;
    }
    proof {
        assert(kv.take(kv.len() as int) =~= kv);
    }

    // cap blank-line runs at one empty line
    let ghost jv = joined@;
    let mut capped: Vec<char> = Vec::new();
    let mut p: usize = 0;
    let mut run: usize = 0;
    while p < joined.len()
        invariant
            0 <= p <= jv.len(),
            joined@ == jv,
            run <= 2,
            capped@ + cap_newlines_from(jv, p as int, run as int) =~= cap_newlines_from(jv, 0, 0),
        decreases jv.len() - p,
    {
        let c = joined[p];
        if c == '\n' {
            if run < 2 {
                capped.push('\n');
                run = run + 1;
            }
        } else {
            capped.push(c);
            run = 0;
        }
        p = p + 1;
    }
    proof {
        assert(cap_newlines_from(jv, jv.len() as int, run as int) =~= Seq::<char>::empty());
        assert(capped@ =~= cap_newlines_from(jv, 0, 0));
    }

    // trim surrounding whitespace
    let ghost cv = capped@;
    let cn = capped.len();
    let mut lo: usize = 0;
    while lo < cn && crate::cloze_parser::is_unicode_ws(capped[lo])
        invariant
            0 <= lo <= cn,
            capped@ == cv,
            cn == cv.len(),
            uws_start(cv, 0) == uws_start(cv, lo as int),
        decreases cn - lo,
    {
        lo = lo + 1;
    }
    proof {
        assert(uws_start(cv, 0) == lo as int);
    }
    let mut hi: usize = cn;
    while hi > lo && crate::cloze_parser::is_unicode_ws(capped[hi - 1])
        invariant
            lo <= hi <= cn,
            capped@ == cv,
            cn == cv.len(),
            uws_end(cv, lo as int, hi as int) == uws_end(cv, lo as int, cn as int),
        decreases hi,
    {
        hi = hi - 1;
    }
    proof {
        assert(uws_end(cv, lo as int, cn as int) == hi as int);
    }
    let mut out: Vec<char> = Vec::new();
    let mut w = lo;
    while w < hi
        invariant
            lo <= w <= hi <= cn,
            capped@ == cv,
            cn == cv.len(),
            out@ == cv.subrange(lo as int, w as int),
        decreases hi - w,
    {
        out.push(capped[w]);
        proof {
            assert(cv.subrange(lo as int, w + 1) =~= cv.subrange(lo as int, w as int).push(
                cv[w as int],
            ));
        }
        w = w + 1;
    }
    chars_to_string(&out)
}

} // verus!
