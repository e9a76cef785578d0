//! The offset model: how many UTF-16 code units of a document are not
//! countable towards reading progress. Two inline markups are recognised:
//! excluded spans written `[[exclude]]...[[/exclude]]` on a single line, and
//! header lines framed by matching runs of `=` signs, as in `== Title ==`.

use vstd::prelude::*;
use crate::text_units::MAX_CONTENT_LENGTH;
use crate::text_units::utf16_len;
use crate::text_units::utf16_seq;
use crate::text_units::utf16_units;
use crate::ranges::span_sum;
use crate::ranges::view_of_pairs;

verus! {

/// The UTF-16 code unit of the line feed.
pub const UNIT_NL: u16 = 0x0A;

/// The UTF-16 code unit of the equals sign.
pub const UNIT_EQ: u16 = 0x3D;

/// The opening tag `[[exclude]]` stands at `i` of `u`.
pub open spec fn open_tag_at(u: Seq<u16>, i: int) -> bool {
    &&& 0 <= i
    &&& i + 11 <= u.len()
    &&& u[i] == 0x5B
    &&& u[i + 1] == 0x5B
    &&& u[i + 2] == 0x65
    &&& u[i + 3] == 0x78
    &&& u[i + 4] == 0x63
    &&& u[i + 5] == 0x6C
    &&& u[i + 6] == 0x75
    &&& u[i + 7] == 0x64
    &&& u[i + 8] == 0x65
    &&& u[i + 9] == 0x5D
    &&& u[i + 10] == 0x5D
}

/// The closing tag `[[/exclude]]` stands at `i` of `u`.
pub open spec fn close_tag_at(u: Seq<u16>, i: int) -> bool {
    &&& 0 <= i
    &&& i + 12 <= u.len()
    &&& u[i] == 0x5B
    &&& u[i + 1] == 0x5B
    &&& u[i + 2] == 0x2F
    &&& u[i + 3] == 0x65
    &&& u[i + 4] == 0x78
    &&& u[i + 5] == 0x63
    &&& u[i + 6] == 0x6C
    &&& u[i + 7] == 0x75
    &&& u[i + 8] == 0x64
    &&& u[i + 9] == 0x65
    &&& u[i + 10] == 0x5D
    &&& u[i + 11] == 0x5D
}

/// The nearest closing tag at or after `j`, provided no line break comes
/// first: an excluded span never crosses a line.
pub open spec fn find_close(u: Seq<u16>, j: int) -> Option<int>
    decreases u.len() - j when 0 <= j <= u.len()
{
    if j >= u.len() {
        None
    } else if close_tag_at(u, j) {
        Some(j)
    } else if u[j] == UNIT_NL {
        None
    } else {
        find_close(u, j + 1)
    }
}

pub proof fn lemma_find_close_bounds(u: Seq<u16>, j: int)
    requires
        0 <= j <= u.len(),
        find_close(u, j) is Some,
    ensures
        j <= find_close(u, j)->0,
        find_close(u, j)->0 + 12 <= u.len(),
    decreases u.len() - j,
{
    if j >= u.len() {
    } else if close_tag_at(u, j) {
    } else if u[j] == UNIT_NL {
    } else {
        lemma_find_close_bounds(u, j + 1);
    }
}

/// The number of code units inside excluded spans, scanning left to right
/// from `i`: at each opening tag, the span runs to the nearest closing tag
/// on the same line, and scanning resumes after it.
pub open spec fn excluded_count_from(u: Seq<u16>, i: int) -> int
    decreases u.len() - i when 0 <= i <= u.len() via excluded_count_from_decreases
{
    if i >= u.len() {
        0
    } else if open_tag_at(u, i) {
        match find_close(u, i + 11) {
            Some(j) => (j - (i + 11)) + excluded_count_from(u, j + 12),
            None => excluded_count_from(u, i + 1),
        }
    } else {
        excluded_count_from(u, i + 1)
    }
}

#[via_fn]
proof fn excluded_count_from_decreases(u: Seq<u16>, i: int) {
    if 0 <= i < u.len() && open_tag_at(u, i) {
        if find_close(u, i + 11) is Some {
            lemma_find_close_bounds(u, i + 11);
        }
    }
}

/// The total excluded size of a document.
pub open spec fn excluded_count(u: Seq<u16>) -> int {
    excluded_count_from(u, 0)
}

pub proof fn lemma_excluded_count_bounds(u: Seq<u16>, i: int)
    requires
        0 <= i <= u.len(),
    ensures
        0 <= excluded_count_from(u, i) <= u.len() - i,
    decreases u.len() - i,
{
    if i >= u.len() {
    } else if open_tag_at(u, i) {
        match find_close(u, i + 11) {
            Some(j) => {
                lemma_find_close_bounds(u, i + 11);
                lemma_excluded_count_bounds(u, j + 12);
            },
            None => {
                lemma_excluded_count_bounds(u, i + 1);
            },
        }
    } else {
        lemma_excluded_count_bounds(u, i + 1);
    }
}

fn matches_open_tag(units: &Vec<u16>, i: usize) -> (r: bool)
    requires
        i <= units@.len(),
    ensures
        r == open_tag_at(units@, i as int),
{
    if units.len() < 11 || i > units.len() - 11 {
        return false;
    }
    units[i] == 0x5B && units[i + 1] == 0x5B && units[i + 2] == 0x65 && units[i + 3] == 0x78
        && units[i + 4] == 0x63 && units[i + 5] == 0x6C && units[i + 6] == 0x75 && units[i + 7]
        == 0x64 && units[i + 8] == 0x65 && units[i + 9] == 0x5D && units[i + 10] == 0x5D
}

fn matches_close_tag(units: &Vec<u16>, i: usize) -> (r: bool)
    requires
        i <= units@.len(),
    ensures
        r == close_tag_at(units@, i as int),
{
    if units.len() < 12 || i > units.len() - 12 {
        return false;
    }
    units[i] == 0x5B && units[i + 1] == 0x5B && units[i + 2] == 0x2F && units[i + 3] == 0x65
        && units[i + 4] == 0x78 && units[i + 5] == 0x63 && units[i + 6] == 0x6C && units[i + 7]
        == 0x75 && units[i + 8] == 0x64 && units[i + 9] == 0x65 && units[i + 10] == 0x5D
        && units[i + 11] == 0x5D
}

/// The number of UTF-16 code units inside `[[exclude]]...[[/exclude]]`
/// spans of the text.
pub fn calculate_excluded_character_count(content: &str) -> (count: i64)
    requires
        utf16_len(content@) <= MAX_CONTENT_LENGTH,
    ensures
        count as int == excluded_count(utf16_seq(content@)),
        0 <= count <= utf16_len(content@),
{
    let units = utf16_units(content);
    let ghost uv = utf16_seq(content@);
    let n = units.len();
    let mut count: i64 = 0;
    let mut i: usize = 0;
    proof {
        lemma_excluded_count_bounds(uv, 0);
    }
    while i < n
        invariant
            0 <= i <= n,
            units@ == uv,
            n == uv.len(),
            n <= MAX_CONTENT_LENGTH,
            0 <= count <= i,
            count + excluded_count_from(uv, i as int) == excluded_count(uv),
        decreases n - i,
    {
        proof {
            lemma_excluded_count_bounds(uv, i as int);
        }
        if matches_open_tag(&units, i) {
            let mut j = i + 11;
            while j < n && units[j] != 0x0A && !matches_close_tag(&units, j)
                invariant
                    i + 11 <= j <= n,
                    units@ == uv,
                    n == uv.len(),
                    find_close(uv, (i + 11) as int) == find_close(uv, j as int),
                decreases n - j,
            {
                j = j + 1;
            }
            if j < n && matches_close_tag(&units, j) {
                proof {
                    assert(find_close(uv, j as int) == Some(j as int));
                    lemma_excluded_count_bounds(uv, j as int + 12);
                }
                count = count + ((j - (i + 11)) as i64);
                i = j + 12;
            } else {
                proof {
                    assert(find_close(uv, j as int) is None);
                }
                i = i + 1;
            }
        } else {
            i = i + 1;
        }
    }
    count
}

/// Where a line beginning at `i` ends: at the next line feed, or at the end
/// of the text.
pub open spec fn line_end(u: Seq<u16>, i: int) -> int
    decreases u.len() - i when 0 <= i <= u.len()
{
    if i >= u.len() {
        i
    } else if u[i] == UNIT_NL {
        i
    } else {
        line_end(u, i + 1)
    }
}

pub proof fn lemma_line_end_bounds(u: Seq<u16>, i: int)
    requires
        0 <= i <= u.len(),
    ensures
        i <= line_end(u, i) <= u.len(),
        forall|k: int| i <= k < line_end(u, i) ==> u[k] != UNIT_NL,
        line_end(u, i) == u.len() || u[line_end(u, i)] == UNIT_NL,
    decreases u.len() - i,
{
    if i >= u.len() {
    } else if u[i] == UNIT_NL {
    } else {
        lemma_line_end_bounds(u, i + 1);
    }
}

/// The length of the run of `=` signs at the front of `[i, end)`.
pub open spec fn leading_eq_run(u: Seq<u16>, i: int, end: int) -> int
    decreases end - i when 0 <= i <= end <= u.len()
{
    if i >= end {
        0
    } else if u[i] == UNIT_EQ {
        1 + leading_eq_run(u, i + 1, end)
    } else {
        0
    }
}

/// The length of the run of `=` signs at the back of `[start, j)`.
pub open spec fn trailing_eq_run(u: Seq<u16>, start: int, j: int) -> int
    decreases j - start when 0 <= start <= j <= u.len()
{
    if j <= start {
        0
    } else if u[j - 1] == UNIT_EQ {
        1 + trailing_eq_run(u, start, j - 1)
    } else {
        0
    }
}

/// The line `[ls, le)` is a header: at least five units long, framed by runs
/// of at least two `=` signs, and the frame the parse settles on is
/// balanced. The parse takes the longest opening run that still leaves a
/// one-unit body and a two-unit close, then the longest closing run the
/// remainder allows.
pub open spec fn header_line(u: Seq<u16>, ls: int, le: int) -> bool {
    let n = le - ls;
    let l = leading_eq_run(u, ls, le);
    let t = trailing_eq_run(u, ls, le);
    let a = if l < n - 3 {
        l
    } else {
        n - 3
    };
    let b = if t < n - 1 - a {
        t
    } else {
        n - 1 - a
    };
    n >= 5 && l >= 2 && t >= 2 && a == b
}

/// Every header line of the text from position `i` on, in order.
pub open spec fn header_lines_from(u: Seq<u16>, i: int) -> Seq<(int, int)>
    decreases u.len() - i when 0 <= i <= u.len() via header_lines_from_decreases
{
    if i >= u.len() {
        Seq::empty()
    } else {
        let le = line_end(u, i);
        let rest = if le >= u.len() {
            Seq::empty()
        } else {
            header_lines_from(u, le + 1)
        };
        if header_line(u, i, le) {
            seq![(i, le)] + rest
        } else {
            rest
        }
    }
}

#[via_fn]
proof fn header_lines_from_decreases(u: Seq<u16>, i: int) {
    if 0 <= i < u.len() {
        lemma_line_end_bounds(u, i);
    }
}

/// All header lines of a document.
pub open spec fn header_lines(u: Seq<u16>) -> Seq<(int, int)> {
    header_lines_from(u, 0)
}

pub proof fn lemma_header_lines_bounds(u: Seq<u16>, i: int)
    requires
        0 <= i <= u.len(),
    ensures
        forall|k: int|
            0 <= k < header_lines_from(u, i).len() ==> i <= (#[trigger] header_lines_from(u, i)[k]).0
                < header_lines_from(u, i)[k].1 <= u.len(),
        forall|k1: int, k2: int|
            0 <= k1 < k2 < header_lines_from(u, i).len() ==> (#[trigger] header_lines_from(
                u,
                i,
            )[k1]).1 < (#[trigger] header_lines_from(u, i)[k2]).0,
    decreases u.len() - i,
{
    if i >= u.len() {
    } else {
        let le = line_end(u, i);
        lemma_line_end_bounds(u, i);
        let rest = if le >= u.len() {
            Seq::<(int, int)>::empty()
        } else {
            header_lines_from(u, le + 1)
        };
        if le < u.len() {
            lemma_header_lines_bounds(u, le + 1);
        }
        let hl = header_lines_from(u, i);
        if header_line(u, i, le) {
            assert(hl == seq![(i, le)] + rest);
            assert(hl[0] == (i, le));
            assert(forall|k: int| 1 <= k < hl.len() ==> hl[k] == rest[k - 1]);
            assert forall|k: int| 0 <= k < hl.len() implies i <= (#[trigger] hl[k]).0 < hl[k].1
                <= u.len() by {
                if k > 0 {
                    assert(hl[k] == rest[k - 1]);
                }
            }
            assert forall|k1: int, k2: int| 0 <= k1 < k2 < hl.len() implies (#[trigger] hl[k1]).1
                < (#[trigger] hl[k2]).0 by {
                assert(hl[k2] == rest[k2 - 1]);
                if k1 > 0 {
                    assert(hl[k1] == rest[k1 - 1]);
                }
            }
        } else {
            assert(hl == rest);
        }
    }
}

/// A header line of the document, `[start,end)` in UTF-16 code units.
#[derive(Clone, Copy, Debug)]
pub struct HeaderRange {
    pub start_position: i64,
    pub end_position: i64,
}

/// The mathematical reading of a header list.
pub open spec fn view_of_headers(s: Seq<HeaderRange>) -> Seq<(int, int)> {
    s.map_values(|h: HeaderRange| (h.start_position as int, h.end_position as int))
}

/// Every `==Header==`-style line of the text, in order of appearance.
pub fn detect_header_ranges(content: &str) -> (headers: Vec<HeaderRange>)
    requires
        utf16_len(content@) <= MAX_CONTENT_LENGTH,
    ensures
        view_of_headers(headers@) == header_lines(utf16_seq(content@)),
{
    let units = utf16_units(content);
    let ghost uv = utf16_seq(content@);
    let n = units.len();
    let mut headers: Vec<HeaderRange> = Vec::new();
    let mut ls: usize = 0;
    while ls < n
        invariant
            0 <= ls <= n,
            units@ == uv,
            n == uv.len(),
            n <= MAX_CONTENT_LENGTH,
            view_of_headers(headers@) + header_lines_from(uv, ls as int) =~= header_lines(uv),
        decreases n - ls,
    {
        // the end of the current line
        let mut le = ls;
        while le < n && units[le] != 0x0A
            invariant
                ls <= le <= n,
                units@ == uv,
                n == uv.len(),
                line_end(uv, ls as int) == line_end(uv, le as int),
            decreases n - le,
        {
            le = le + 1;
        }
        proof {
            assert(line_end(uv, ls as int) == le as int);
        }

        // the run of `=` at the front of the line
        let mut l: usize = 0;
        while ls + l < le && units[ls + l] == 0x3D
            invariant
                0 <= l,
                ls + l <= le <= n,
                units@ == uv,
                n == uv.len(),
                leading_eq_run(uv, ls as int, le as int) == l + leading_eq_run(
                    uv,
                    ls as int + l,
                    le as int,
                ),
            decreases le - ls - l,
        {
            l = l + 1;
        }
        proof {
            assert(leading_eq_run(uv, ls as int, le as int) == l as int);
        }

        // the run of `=` at the back of the line
        let mut t: usize = 0;
        while le - t > ls && units[le - t - 1] == 0x3D
            invariant
                0 <= t,
                ls <= le - t,
                le <= n,
                units@ == uv,
                n == uv.len(),
                trailing_eq_run(uv, ls as int, le as int) == t + trailing_eq_run(
                    uv,
                    ls as int,
                    le as int - t,
                ),
            decreases le - t - ls,
        {
            t = t + 1;
        }
        proof {
            assert(trailing_eq_run(uv, ls as int, le as int) == t as int);
        }

        let line_len = le - ls;
        let ghost old_headers = view_of_headers(headers@);
        if line_len >= 5 && l >= 2 && t >= 2 {
            let a = if l < line_len - 3 {
                l
            } else {
                line_len - 3
            };
            let b_cap = line_len - 1 - a;
            let b = if t < b_cap {
                t
            } else {
                b_cap
            };
            if a == b {
                headers.push(HeaderRange { start_position: ls as i64, end_position: le as i64 });
                proof {
                    assert(view_of_headers(headers@) =~= old_headers.push(
                        (ls as int, le as int),
                    ));
                }
            }
        }
        proof {
            if header_line(uv, ls as int, le as int) {
                assert(view_of_headers(headers@) =~= old_headers + seq![(ls as int, le as int)]);
            } else {
                assert(view_of_headers(headers@) == old_headers);
            }
        }
        if le >= n {
            ls = n;
        } else {
            ls = le + 1;
        }
    }
    headers
}

/// The number of UTF-16 code units inside header lines of the text.
pub fn calculate_header_character_count(content: &str) -> (count: i64)
    requires
        utf16_len(content@) <= MAX_CONTENT_LENGTH,
    ensures
        count as int == span_sum(header_lines(utf16_seq(content@))),
        0 <= count <= utf16_len(content@),
{
    let headers = detect_header_ranges(content);
    let ghost uv = utf16_seq(content@);
    let ghost hv = header_lines(uv);
    proof {
        lemma_header_lines_bounds(uv, 0);
    }
    let mut count: i64 = 0;
    let mut i: usize = 0;
    while i < headers.len()
        invariant
            0 <= i <= headers@.len(),
            view_of_headers(headers@) == hv,
            forall|k: int| 0 <= k < hv.len() ==> 0 <= (#[trigger] hv[k]).0 < hv[k].1 <= uv.len(),
            forall|k1: int, k2: int|
                0 <= k1 < k2 < hv.len() ==> (#[trigger] hv[k1]).1 < (#[trigger] hv[k2]).0,
            uv.len() <= MAX_CONTENT_LENGTH,
            count as int == span_sum(hv.take(i as int)),
            0 <= count,
            i > 0 ==> count <= hv[i as int - 1].1,
        decreases headers@.len() - i,
    {
        proof {
            assert(hv.take(i + 1).drop_last() =~= hv.take(i as int));
            assert(hv.take(i + 1).last() == hv[i as int]);
            assert(hv[i as int] == (headers@[i as int].start_position as int, headers@[i as int].end_position as int));
            if i > 0 {
                assert(hv[i as int - 1].1 < hv[i as int].0);
            }
        }
        count = count + (headers[i].end_position - headers[i].start_position);
        i = i + 1;
    }
    proof {
        assert(hv.take(headers@.len() as int) =~= hv);
        if headers@.len() > 0 {
            assert(count <= hv[headers@.len() - 1].1);
        }
    }
    count
}

/// The countable length of a document: its total length minus the excluded
/// spans and the header lines. The progress denominator.
pub fn get_countable_length(content: &str, content_length: i64) -> (countable: i64)
    requires
        0 <= content_length <= MAX_CONTENT_LENGTH,
        utf16_len(content@) <= MAX_CONTENT_LENGTH,
    ensures
        countable as int == content_length - excluded_count(utf16_seq(content@)) - span_sum(
            header_lines(utf16_seq(content@)),
        ),
{
    let excluded = calculate_excluded_character_count(content);
    let header = calculate_header_character_count(content);
    content_length - excluded - header
}

} // verus!
