//! Paragraph detection and lookup: splits text into paragraphs at blank
//! lines, trimming surrounding whitespace, and finds the first paragraph a
//! reader has not touched yet.

use vstd::prelude::*;
use crate::ranges::ReadRange;
use crate::ranges::covers;
use crate::ranges::view_of_ranges;
use crate::text_units::MAX_CONTENT_LENGTH;
use crate::text_units::utf16_len;
use crate::text_units::utf16_seq;
use crate::text_units::utf16_units;

verus! {

/// A paragraph of a document, `[start,end)` in UTF-16 code units.
#[derive(Clone, Copy, Debug)]
pub struct Paragraph {
    pub paragraph_index: i64,
    pub start_position: i64,
    pub end_position: i64,
    pub character_count: i64,
}

/// The whitespace code units the paragraph scanner recognises: space, tab,
/// line feed, carriage return.
pub open spec fn is_ws(x: u16) -> bool {
    x == 0x20 || x == 0x09 || x == 0x0A || x == 0x0D
}

/// The first position at or after `i` holding a non-whitespace unit.
pub open spec fn skip_ws(u: Seq<u16>, i: int) -> int
    decreases u.len() - i when 0 <= i <= u.len()
{
    if i >= u.len() {
        i
    } else if is_ws(u[i]) {
        skip_ws(u, i + 1)
    } else {
        i
    }
}

pub proof fn lemma_skip_ws_bounds(u: Seq<u16>, i: int)
    requires
        0 <= i <= u.len(),
    ensures
        i <= skip_ws(u, i) <= u.len(),
        skip_ws(u, i) < u.len() ==> !is_ws(u[skip_ws(u, i)]),
    decreases u.len() - i,
{
    if i < u.len() && is_ws(u[i]) {
        lemma_skip_ws_bounds(u, i + 1);
    }
}

/// Where a paragraph's raw scan stops: at the second line feed of a blank
/// line (carriage returns between them do not break the pair), or at the
/// end of the text. `consec` counts the line feeds of the current run.
pub open spec fn para_scan_end(u: Seq<u16>, i: int, consec: int) -> int
    decreases u.len() - i when 0 <= i <= u.len()
{
    if i >= u.len() {
        i
    } else if u[i] == 0x0A && consec + 1 >= 2 {
        i
    } else if u[i] == 0x0A {
        para_scan_end(u, i + 1, consec + 1)
    } else if u[i] == 0x0D {
        para_scan_end(u, i + 1, consec)
    } else {
        para_scan_end(u, i + 1, 0)
    }
}

pub proof fn lemma_para_scan_end_bounds(u: Seq<u16>, i: int, consec: int)
    requires
        0 <= i <= u.len(),
    ensures
        i <= para_scan_end(u, i, consec) <= u.len(),
    decreases u.len() - i,
{
    if i < u.len() {
        if u[i] == 0x0A && consec + 1 >= 2 {
        } else if u[i] == 0x0A {
            lemma_para_scan_end_bounds(u, i + 1, consec + 1);
        } else if u[i] == 0x0D {
            lemma_para_scan_end_bounds(u, i + 1, consec);
        } else {
            lemma_para_scan_end_bounds(u, i + 1, 0);
        }
    }
}

/// The end of `[start, j)` with trailing whitespace removed.
pub open spec fn trim_back(u: Seq<u16>, start: int, j: int) -> int
    decreases j - start when 0 <= start <= j <= u.len()
{
    if j <= start {
        start
    } else if is_ws(u[j - 1]) {
        trim_back(u, start, j - 1)
    } else {
        j
    }
}

pub proof fn lemma_trim_back_bounds(u: Seq<u16>, start: int, j: int)
    requires
        0 <= start <= j <= u.len(),
    ensures
        start <= trim_back(u, start, j) <= j,
    decreases j - start,
{
    if j > start && is_ws(u[j - 1]) {
        lemma_trim_back_bounds(u, start, j - 1);
    }
}

/// The paragraph spans of the text from position `i` on: each starts at the
/// next non-whitespace unit, runs to the next blank line or the end of the
/// text, and loses its trailing whitespace.
pub open spec fn paragraph_spans_from(u: Seq<u16>, i: int) -> Seq<(int, int)>
    decreases u.len() - i when 0 <= i <= u.len() via paragraph_spans_from_decreases
{
    let s = skip_ws(u, i);
    if s >= u.len() {
        Seq::empty()
    } else {
        let pe = para_scan_end(u, s, 0);
        let end = trim_back(u, s, pe);
        seq![(s, end)] + paragraph_spans_from(u, pe)
    }
}

#[via_fn]
proof fn paragraph_spans_from_decreases(u: Seq<u16>, i: int) {
    if 0 <= i <= u.len() {
        lemma_skip_ws_bounds(u, i);
        let s = skip_ws(u, i);
        if s < u.len() {
            lemma_para_scan_end_bounds(u, s + 1, 0);
            assert(u[s] != 0x0A);
            assert(para_scan_end(u, s, 0) == para_scan_end(u, s + 1, 0));
            lemma_trim_back_bounds(u, s, para_scan_end(u, s, 0));
        }
    }
}

/// All paragraph spans of a document.
pub open spec fn paragraph_spans(u: Seq<u16>) -> Seq<(int, int)> {
    paragraph_spans_from(u, 0)
}

/// The mathematical reading of a paragraph list: its spans.
pub open spec fn view_of_paragraphs(s: Seq<Paragraph>) -> Seq<(int, int)> {
    s.map_values(|p: Paragraph| (p.start_position as int, p.end_position as int))
}

/// Splits text into paragraphs at blank lines, skipping surrounding
/// whitespace; each paragraph carries its index and its length in UTF-16
/// code units.
pub fn detect_paragraphs(content: &str) -> (paragraphs: Vec<Paragraph>)
    requires
        utf16_len(content@) <= MAX_CONTENT_LENGTH,
    ensures
        view_of_paragraphs(paragraphs@) == paragraph_spans(utf16_seq(content@)),
        paragraphs@.len() <= utf16_len(content@),
        forall|k: int|
            0 <= k < paragraphs@.len() ==> (#[trigger] paragraphs@[k]).paragraph_index == k
                && paragraphs@[k].character_count == paragraphs@[k].end_position
                - paragraphs@[k].start_position,
{
    let units = utf16_units(content);
    let ghost uv = utf16_seq(content@);
    let n = units.len();
    let mut paragraphs: Vec<Paragraph> = Vec::new();
    let mut pos: usize = 0;
    while pos < n
        invariant
            0 <= pos <= n,
            units@ == uv,
            n == uv.len(),
            n <= MAX_CONTENT_LENGTH,
            paragraphs@.len() <= pos,
            view_of_paragraphs(paragraphs@) + paragraph_spans_from(uv, pos as int)
                =~= paragraph_spans(uv),
            forall|k: int|
                0 <= k < paragraphs@.len() ==> (#[trigger] paragraphs@[k]).paragraph_index == k
                    && paragraphs@[k].character_count == paragraphs@[k].end_position
                    - paragraphs@[k].start_position,
        decreases n - pos,
    {
        let ghost scan_from = pos as int;
        // skip whitespace before the paragraph
        while pos < n && (units[pos] == 0x20 || units[pos] == 0x09 || units[pos] == 0x0A
            || units[pos] == 0x0D)
            invariant
                0 <= scan_from <= pos <= n,
                units@ == uv,
                n == uv.len(),
                skip_ws(uv, pos as int) == skip_ws(uv, scan_from),
            decreases n - pos,
        {
            pos = pos + 1;
        }
        proof {
            assert(skip_ws(uv, scan_from) == pos as int);
        }
        if pos >= n {
            proof {
                assert(paragraph_spans_from(uv, scan_from) =~= Seq::<(int, int)>::empty());
                assert(paragraph_spans_from(uv, pos as int) =~= Seq::<(int, int)>::empty());
            }
        } else {
        let start = pos;

        // run to the next blank line
        let mut consecutive_newlines: usize = 0;
        while pos < n && !(units[pos] == 0x0A && consecutive_newlines + 1 >= 2)
            invariant
                start <= pos <= n,
                units@ == uv,
                n == uv.len(),
                consecutive_newlines <= pos,
                para_scan_end(uv, pos as int, consecutive_newlines as int) == para_scan_end(
                    uv,
                    start as int,
                    0,
                ),
            decreases n - pos,
        {
            if units[pos] == 0x0A {
                consecutive_newlines = consecutive_newlines + 1;
            } else if units[pos] != 0x0D {
                consecutive_newlines = 0;
            }
            pos = pos + 1;
        }
        proof {
            assert(para_scan_end(uv, start as int, 0) == pos as int);
        }

        // trim trailing whitespace
        let mut end = pos;
        while end > start && (units[end - 1] == 0x20 || units[end - 1] == 0x09 || units[end - 1]
            == 0x0A || units[end - 1] == 0x0D)
            invariant
                start <= end <= pos <= n,
                units@ == uv,
                n == uv.len(),
                trim_back(uv, start as int, end as int) == trim_back(uv, start as int, pos as int),
            decreases end - start,
        {
            end = end - 1;
        }
        proof {
            assert(trim_back(uv, start as int, pos as int) == end as int);
        }

        let ghost old_pv = view_of_paragraphs(paragraphs@);
        let index = paragraphs.len() as i64;
        paragraphs.push(
            Paragraph {
                paragraph_index: index,
                start_position: start as i64,
                end_position: end as i64,
                character_count: (end - start) as i64,
            },
        );
        proof {
            assert(view_of_paragraphs(paragraphs@) =~= old_pv.push((start as int, end as int)));
            assert(old_pv.push((start as int, end as int)) =~= old_pv + seq![
                (start as int, end as int),
            ]);
            assert(paragraph_spans_from(uv, scan_from) =~= seq![(start as int, end as int)]
                + paragraph_spans_from(uv, pos as int));
        }
        }
    }
    proof {
        assert(paragraph_spans_from(uv, pos as int) =~= Seq::<(int, int)>::empty());
        assert(view_of_paragraphs(paragraphs@) =~= paragraph_spans(uv));
    }
    paragraphs
}

/// The first paragraph, in the given order, that starts at or after
/// `current_pos` and whose start no read range covers.
pub open spec fn next_unread_spec(
    paragraphs: Seq<Paragraph>,
    current_pos: int,
    ranges: Seq<(int, int)>,
) -> Option<Paragraph>
    decreases paragraphs.len(),
{
    if paragraphs.len() == 0 {
        None
    } else if paragraphs[0].start_position >= current_pos && !covers(
        ranges,
        paragraphs[0].start_position as int,
    ) {
        Some(paragraphs[0])
    } else {
        next_unread_spec(paragraphs.drop_first(), current_pos, ranges)
    }
}

/// The first paragraph at or after `current_pos` whose start the reader has
/// not covered yet.
pub fn get_next_unread_paragraph(
    paragraphs: &Vec<Paragraph>,
    current_pos: i64,
    ranges: &Vec<ReadRange>,
) -> (next: Option<Paragraph>)
    ensures
        next == next_unread_spec(paragraphs@, current_pos as int, view_of_ranges(ranges@)),
{
    let ghost rv = view_of_ranges(ranges@);
    proof {
        assert(paragraphs@.skip(0) =~= paragraphs@);
    }
    let mut i: usize = 0;
    while i < paragraphs.len()
        invariant
            0 <= i <= paragraphs@.len(),
            rv == view_of_ranges(ranges@),
            next_unread_spec(paragraphs@, current_pos as int, rv) == next_unread_spec(
                paragraphs@.skip(i as int),
                current_pos as int,
                rv,
            ),
        decreases paragraphs@.len() - i,
    {
        let p = paragraphs[i];
        proof {
            assert(paragraphs@.skip(i as int)[0] == paragraphs@[i as int]);
            assert(paragraphs@.skip(i as int).drop_first() =~= paragraphs@.skip(i + 1));
        }
        if p.start_position >= current_pos {
            let read = crate::ranges::RangeCalculator::is_position_read(p.start_position, ranges);
            if !read {
                return Some(p);
            }
        }
        i = i + 1;
    }
    proof {
        assert(paragraphs@.skip(paragraphs@.len() as int) =~= Seq::<Paragraph>::empty());
    }
    None
}

} // verus!
