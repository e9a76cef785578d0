//! The continuation locator: where should the reader resume? It picks the
//! first paragraph whose start is still unread, else a lookback window from
//! the last read position, else the start of the document, then grows a
//! bounded excerpt forward to a natural boundary. All scanning works on
//! whole code points: a boundary that would split a surrogate pair is
//! re-aligned to the nearest valid code-point boundary.

use vstd::prelude::*;
use crate::paragraphs::Paragraph;
use crate::ranges::RangeCalculator;
use crate::ranges::ReadRange;
use crate::ranges::covers;
use crate::ranges::ranges_wf;
use crate::ranges::view_of_ranges;
use crate::text_units::MAX_CONTENT_LENGTH;
use crate::text_units::char_utf16_len;
use crate::text_units::chars_to_string;
use crate::text_units::utf16_len;
use crate::text_units::utf16_seq;
use crate::text_units::utf16_units;

verus! {

/// How far back from the last read position the excerpt may start.
pub const LOOKBACK_UNITS: i64 = 250;

/// The target excerpt size, in UTF-16 code units.
pub const TARGET_EXCERPT_UNITS: usize = 500;

/// How far around the target endpoint the locator looks for a natural
/// boundary.
pub const BOUNDARY_SEARCH_UNITS: usize = 50;

/// Why the excerpt starts where it does.
#[derive(Clone, Copy, Debug, PartialEq, Eq, Structural)]
pub enum ExcerptKind {
    /// The first unread paragraph.
    Unread,
    /// A lookback window from the reader's last position.
    Current,
    /// The start of the document.
    Beginning,
}

impl ExcerptKind {
    /// The name the presentation layer uses for this kind.
    pub fn name(&self) -> (name: &'static str)
        ensures
            match *self {
                ExcerptKind::Unread => name@ == "unread"@,
                ExcerptKind::Current => name@ == "current"@,
                ExcerptKind::Beginning => name@ == "beginning"@,
            },
    {
        match self {
            ExcerptKind::Unread => "unread",
            ExcerptKind::Current => "current",
            ExcerptKind::Beginning => "beginning",
        }
    }
}

/// The excerpt a reader resumes with.
pub struct SmartExcerpt {
    pub excerpt: String,
    pub start_pos: i64,
    pub end_pos: i64,
    pub current_position: i64,
    pub total_length: i64,
    pub excerpt_type: ExcerptKind,
}

/// The furthest end of any read range: the reader's last position.
pub open spec fn max_range_end(rv: Seq<(int, int)>) -> int
    decreases rv.len(),
{
    if rv.len() == 0 {
        0
    } else {
        let m = max_range_end(rv.drop_last());
        if rv.last().1 > m {
            rv.last().1
        } else {
            m
        }
    }
}

/// The start of the first paragraph, in the given order, whose start lies in
/// the document and is not covered by any read range.
pub open spec fn first_unread_para_start(
    paragraphs: Seq<Paragraph>,
    total: int,
    rv: Seq<(int, int)>,
) -> Option<int>
    decreases paragraphs.len(),
{
    if paragraphs.len() == 0 {
        None
    } else if 0 <= paragraphs[0].start_position < total && !covers(
        rv,
        paragraphs[0].start_position as int,
    ) {
        Some(paragraphs[0].start_position as int)
    } else {
        first_unread_para_start(paragraphs.drop_first(), total, rv)
    }
}

/// Where the excerpt starts and why: the first unread paragraph, else a
/// lookback window from the last read position, else the beginning.
pub open spec fn continuation_choice(
    paragraphs: Seq<Paragraph>,
    total: int,
    rv: Seq<(int, int)>,
    current: int,
) -> (int, ExcerptKind) {
    match first_unread_para_start(paragraphs, total, rv) {
        Some(st) => (st, ExcerptKind::Unread),
        None => if current > 0 {
            (
                if current - LOOKBACK_UNITS > 0 {
                    current - LOOKBACK_UNITS
                } else {
                    0
                },
                ExcerptKind::Current,
            )
        } else {
            (0, ExcerptKind::Beginning)
        },
    }
}

/// The last line feed in `[lo, hi)`.
pub open spec fn last_nl_in(u: Seq<u16>, lo: int, hi: int) -> Option<int>
    decreases hi - lo when 0 <= lo <= hi <= u.len()
{
    if hi <= lo {
        None
    } else if u[hi - 1] == 0x0A {
        Some(hi - 1)
    } else {
        last_nl_in(u, lo, hi - 1)
    }
}

/// The last `". "` in `[lo, hi)`, as the position of its period.
pub open spec fn last_period_space(u: Seq<u16>, lo: int, hi: int) -> Option<int>
    decreases hi - lo when 0 <= lo <= hi <= u.len()
{
    if hi - lo < 2 {
        None
    } else if u[hi - 2] == 0x2E && u[hi - 1] == 0x20 {
        Some(hi - 2)
    } else {
        last_period_space(u, lo, hi - 1)
    }
}

/// Where the excerpt naturally ends: the target window from `start`, clipped
/// to the document; if that endpoint is interior, the last line feed in a
/// window around it (the excerpt stops before it), else the last `". "`
/// there (the excerpt stops just past the period), else the raw endpoint.
pub open spec fn natural_end(u: Seq<u16>, start: int) -> int {
    let total = u.len() as int;
    if total - start > TARGET_EXCERPT_UNITS {
        let e0 = start + TARGET_EXCERPT_UNITS;
        let lo = if e0 - BOUNDARY_SEARCH_UNITS > start {
            e0 - BOUNDARY_SEARCH_UNITS
        } else {
            start
        };
        let hi = if total - e0 > BOUNDARY_SEARCH_UNITS {
            e0 + BOUNDARY_SEARCH_UNITS
        } else {
            total
        };
        match last_nl_in(u, lo, hi) {
            Some(nl) => nl,
            None => match last_period_space(u, lo, hi) {
                Some(i) => i + 1,
                None => e0,
            },
        }
    } else {
        total
    }
}

/// The second half of a surrogate pair.
pub open spec fn is_low_surrogate(x: u16) -> bool {
    0xDC00 <= x < 0xE000
}

/// The excerpt bounds after re-aligning both ends to whole code points: a
/// start inside a surrogate pair moves forward past it, an end inside one
/// moves back before it.
pub open spec fn excerpt_window(u: Seq<u16>, chosen: int) -> (int, int) {
    let s1 = if chosen < u.len() && is_low_surrogate(u[chosen]) {
        chosen + 1
    } else {
        chosen
    };
    let e0 = natural_end(u, chosen);
    let e1 = if e0 < s1 {
        s1
    } else {
        e0
    };
    let e2 = if s1 < e1 < u.len() && is_low_surrogate(u[e1]) {
        e1 - 1
    } else {
        e1
    };
    (s1, e2)
}

/// The characters of `s` whose code units lie wholly inside `[a, b)`, where
/// `off` is the unit offset of the first character.
pub open spec fn chars_in_window(s: Seq<char>, off: int, a: int, b: int) -> Seq<char>
    decreases s.len(),
{
    if s.len() == 0 {
        Seq::empty()
    } else {
        let w = char_utf16_len(s[0]);
        let rest = chars_in_window(s.drop_first(), off + w, a, b);
        if a <= off && off + w <= b {
            seq![s[0]] + rest
        } else {
            rest
        }
    }
}

/// The first non-whitespace position at or after `i`, by the Unicode
/// whitespace the host's trim removes.
pub open spec fn trim_start_idx(s: Seq<char>, i: int) -> int
    decreases s.len() - i when 0 <= i <= s.len()
{
    if i >= s.len() {
        i
    } else if crate::cloze_parser::unicode_ws(s[i]) {
        trim_start_idx(s, i + 1)
    } else {
        i
    }
}

/// The end of `[lo, j)` with trailing whitespace removed.
pub open spec fn trim_end_idx(s: Seq<char>, lo: int, j: int) -> int
    decreases j - lo when 0 <= lo <= j <= s.len()
{
    if j <= lo {
        lo
    } else if crate::cloze_parser::unicode_ws(s[j - 1]) {
        trim_end_idx(s, lo, j - 1)
    } else {
        j
    }
}

/// `s` with leading and trailing whitespace removed.
pub open spec fn trimmed_chars(s: Seq<char>) -> Seq<char> {
    let lo = trim_start_idx(s, 0);
    s.subrange(lo, trim_end_idx(s, lo, s.len() as int))
}

proof fn lemma_utf16_take_le(s: Seq<char>, i: int)
    requires
        0 <= i <= s.len(),
    ensures
        utf16_len(s.take(i)) <= utf16_len(s),
        utf16_len(s.take(i)) >= 0,
    decreases s.len() - i,
{
    if i < s.len() {
        lemma_utf16_take_le(s, i + 1);
        assert(s.take(i + 1).drop_last() =~= s.take(i));
        assert(s.take(i + 1).last() == s[i]);
    } else {
        assert(s.take(i) =~= s);
        lemma_utf16_nonneg(s);
    }
}

proof fn lemma_utf16_nonneg(s: Seq<char>)
    ensures
        utf16_len(s) >= 0,
    decreases s.len(),
{
    if s.len() > 0 {
        lemma_utf16_nonneg(s.drop_last());
    }
}

/// The text the reader should resume with, grown from the continuation
/// choice to a natural boundary and trimmed for presentation. `start_pos`
/// and `end_pos` are the untrimmed, code-point-aligned excerpt bounds.
pub fn get_smart_excerpt(
    content: &str,
    read_ranges: &Vec<ReadRange>,
    paragraphs: &Vec<Paragraph>,
) -> (result: SmartExcerpt)
    requires
        utf16_len(content@) <= MAX_CONTENT_LENGTH,
        ranges_wf(view_of_ranges(read_ranges@)),
        forall|i: int|
            0 <= i < read_ranges@.len() ==> (#[trigger] view_of_ranges(read_ranges@)[i]).1
                <= utf16_len(content@),
    ensures
        ({
            let uv = utf16_seq(content@);
            let total = uv.len() as int;
            let rv = view_of_ranges(read_ranges@);
            let current = max_range_end(rv);
            let choice = continuation_choice(paragraphs@, total, rv, current);
            &&& result.total_length == total
            &&& result.current_position == current
            &&& total == 0 ==> result.start_pos == 0 && result.end_pos == 0
                && result.excerpt_type == ExcerptKind::Beginning && result.excerpt@
                == Seq::<char>::empty()
            &&& total > 0 ==> result.excerpt_type == choice.1
            &&& total > 0 && choice.0 >= total ==> result.start_pos == total && result.end_pos
                == total && result.excerpt@ == Seq::<char>::empty()
            &&& total > 0 && choice.0 < total ==> {
                let w = excerpt_window(uv, choice.0);
                &&& result.start_pos == w.0
                &&& result.end_pos == w.1
                &&& result.excerpt@ == trimmed_chars(
                    chars_in_window(content@, 0, w.0, w.1),
                )
            }
        }),
{
    let units = utf16_units(content);
    let ghost uv = utf16_seq(content@);
    let ghost rv = view_of_ranges(read_ranges@);
    let total_units = units.len();
    let total = total_units as i64;

    // the reader's last position: the furthest end of any read range
    let mut current_position: i64 = 0;
    let mut i: usize = 0;
    while i < read_ranges.len()
        invariant
            0 <= i <= read_ranges@.len(),
            rv == view_of_ranges(read_ranges@),
            current_position as int == max_range_end(rv.take(i as int)),
            ranges_wf(rv),
        decreases read_ranges@.len() - i,
    {
        proof {
            assert(rv.take(i + 1).drop_last() =~= rv.take(i as int));
            assert(rv.take(i + 1).last() == rv[i as int]);
        }
        if read_ranges[i].end_position > current_position {
            current_position = read_ranges[i].end_position;
        }
        i = i + 1;
    }
    proof {
        assert(rv.take(rv.len() as int) =~= rv);
    }

    if total_units == 0 {
        return SmartExcerpt {
            excerpt: chars_to_string(&Vec::new()),
            start_pos: 0,
            end_pos: 0,
            current_position,
            total_length: 0,
            excerpt_type: ExcerptKind::Beginning,
        };
    }

    // where to resume: first unread paragraph, else lookback, else start
    let mut chosen: i64 = 0;
    let mut kind = ExcerptKind::Beginning;
    let mut found_para: bool = false;
    let mut j: usize = 0;
    proof {
        assert(paragraphs@.skip(0) =~= paragraphs@);
    }
    while j < paragraphs.len() && !found_para
        invariant
            0 <= j <= paragraphs@.len(),
            rv == view_of_ranges(read_ranges@),
            total as int == uv.len(),
            found_para ==> j > 0 && first_unread_para_start(paragraphs@, total as int, rv)
                == Some(chosen as int) && 0 <= chosen < total && kind == ExcerptKind::Unread,
            !found_para ==> first_unread_para_start(paragraphs@, total as int, rv)
                == first_unread_para_start(paragraphs@.skip(j as int), total as int, rv),
        decreases paragraphs@.len() - j,
    {
        let p = paragraphs[j];
        proof {
            assert(paragraphs@.skip(j as int)[0] == paragraphs@[j as int]);
            assert(paragraphs@.skip(j as int).drop_first() =~= paragraphs@.skip(j + 1));
        }
        if p.start_position >= 0 && p.start_position < total {
            let read = RangeCalculator::is_position_read(p.start_position, read_ranges);
            if !read {
                chosen = p.start_position;
                kind = ExcerptKind::Unread;
                found_para = true;
            }
        }
        j = j + 1;
    }
    if !found_para {
        proof {
            assert(paragraphs@.skip(paragraphs@.len() as int) =~= Seq::<Paragraph>::empty());
        }
        if current_position > 0 {
            kind = ExcerptKind::Current;
            chosen = if current_position - LOOKBACK_UNITS > 0 {
                current_position - LOOKBACK_UNITS
            } else {
                0
            };
        } else {
            kind = ExcerptKind::Beginning;
            chosen = 0;
        }
    }
    proof {
        assert((chosen as int, kind) == continuation_choice(
            paragraphs@,
            total as int,
            rv,
            max_range_end(rv),
        ));
    }

    if chosen >= total {
        return SmartExcerpt {
            excerpt: chars_to_string(&Vec::new()),
            start_pos: total,
            end_pos: total,
            current_position,
            total_length: total,
            excerpt_type: kind,
        };
    }

    // grow forward to a natural boundary
    let chosen_u = chosen as usize;
    let end0: usize;
    let mut end_u: usize;
    if total_units - chosen_u > TARGET_EXCERPT_UNITS {
        end0 = chosen_u + TARGET_EXCERPT_UNITS;
        let lo = if end0 - BOUNDARY_SEARCH_UNITS > chosen_u {
            end0 - BOUNDARY_SEARCH_UNITS
        } else {
            chosen_u
        };
        let hi = if total_units - end0 > BOUNDARY_SEARCH_UNITS {
            end0 + BOUNDARY_SEARCH_UNITS
        } else {
            total_units
        };
        let mut k = hi;
        let mut nl_found: bool = false;
        while k > lo && !nl_found
            invariant
                lo <= k <= hi <= total_units,
                units@ == uv,
                total_units == uv.len(),
                nl_found ==> k < hi && last_nl_in(uv, lo as int, hi as int) == Some(k as int)
                    && lo <= k,
                !nl_found ==> last_nl_in(uv, lo as int, hi as int) == last_nl_in(
                    uv,
                    lo as int,
                    k as int,
                ),
            decreases k,
        {
            if units[k - 1] == 0x0A {
                nl_found = true;
                k = k - 1;
            } else {
                k = k - 1;
            }
        }
        if nl_found {
            end_u = k;
        } else {
            let mut m = hi;
            let mut ps_found: bool = false;
            while m > lo && !ps_found
                invariant
                    lo <= m <= hi <= total_units,
                    units@ == uv,
                    total_units == uv.len(),
                    ps_found ==> m + 2 <= hi && last_period_space(uv, lo as int, hi as int)
                        == Some(m as int) && lo <= m,
                    !ps_found ==> last_period_space(uv, lo as int, hi as int)
                        == last_period_space(uv, lo as int, m as int),
                decreases m,
            {
                if m - lo >= 2 && units[m - 2] == 0x2E && units[m - 1] == 0x20 {
                    ps_found = true;
                    m = m - 2;
                } else {
                    m = m - 1;
                }
            }
            if ps_found {
                end_u = m + 1;
            } else {
                end_u = end0;
            }
        }
    } else {
        end_u = total_units;
    }

    // re-align both bounds to whole code points
    let mut start_u = chosen_u;
    if start_u < total_units && units[start_u] >= 0xDC00 && units[start_u] < 0xE000 {
        start_u = start_u + 1;
    }
    if end_u < start_u {
        end_u = start_u;
    }
    if start_u < end_u && end_u < total_units && units[end_u] >= 0xDC00 && units[end_u] < 0xE000 {
        end_u = end_u - 1;
    }
    proof {
        assert((start_u as int, end_u as int) == excerpt_window(uv, chosen as int));
    }

    // collect the characters wholly inside the window
    let n_chars = content.unicode_len();
    let mut collected: Vec<char> = Vec::new();
    let mut uoff: usize = 0;
    let mut ci: usize = 0;
    proof {
        assert(content@.skip(0) =~= content@);
        assert(content@.take(0) =~= Seq::<char>::empty());
    }
    while ci < n_chars
        invariant
            0 <= ci <= n_chars,
            n_chars == content@.len(),
            uv == utf16_seq(content@),
            uoff as int == utf16_len(content@.take(ci as int)),
            uoff <= uv.len(),
            uv.len() == total_units <= MAX_CONTENT_LENGTH,
            start_u <= total_units,
            end_u <= total_units,
            collected@ + chars_in_window(
                content@.skip(ci as int),
                uoff as int,
                start_u as int,
                end_u as int,
            ) =~= chars_in_window(content@, 0, start_u as int, end_u as int),
        decreases n_chars - ci,
    {
        let c = content.get_char(ci);
        proof {
            vstd::utf8::char_is_scalar(c);
            assert(content@.skip(ci as int)[0] == content@[ci as int]);
            assert(content@.skip(ci as int).drop_first() =~= content@.skip(ci + 1));
            assert(content@.take(ci + 1).drop_last() =~= content@.take(ci as int));
            assert(content@.take(ci + 1).last() == content@[ci as int]);
            lemma_utf16_take_le(content@, ci + 1);
        }
        let w: usize = if (c as u32) < 0x10000 {
            1
        } else {
            2
        };
        proof {
            assert(w as int == char_utf16_len(c));
            assert(utf16_len(content@.take(ci + 1)) == uoff as int + w as int);
        }
        if start_u <= uoff && uoff + w <= end_u {
            collected.push(c);
        }
        uoff = uoff + w;
        ci = ci + 1;
    }
    proof {
        assert(content@.skip(content@.len() as int) =~= Seq::<char>::empty());
        assert(chars_in_window(
            content@.skip(content@.len() as int),
            uoff as int,
            start_u as int,
            end_u as int,
        ) =~= Seq::<char>::empty());
        assert(collected@ =~= chars_in_window(content@, 0, start_u as int, end_u as int));
    }

    // trim surrounding whitespace for presentation
    let cn = collected.len();
    let mut lo_c: usize = 0;
    while lo_c < cn && crate::cloze_parser::is_unicode_ws(collected[lo_c])
        invariant
            0 <= lo_c <= cn,
            cn == collected@.len(),
            trim_start_idx(collected@, lo_c as int) == trim_start_idx(collected@, 0),
        decreases cn - lo_c,
    {
        lo_c = lo_c + 1;
    }
    proof {
        assert(trim_start_idx(collected@, 0) == lo_c as int);
    }
    let mut hi_c: usize = cn;
    while hi_c > lo_c && crate::cloze_parser::is_unicode_ws(collected[hi_c - 1])
        invariant
            lo_c <= hi_c <= cn,
            cn == collected@.len(),
            trim_end_idx(collected@, lo_c as int, hi_c as int) == trim_end_idx(
                collected@,
                lo_c as int,
                cn as int,
            ),
        decreases hi_c,
    {
        hi_c = hi_c - 1;
    }
    proof {
        assert(trim_end_idx(collected@, lo_c as int, cn as int) == hi_c as int);
    }
    let mut trimmed: Vec<char> = Vec::new();
    let mut t: usize = lo_c;
    while t < hi_c
        invariant
            lo_c <= t <= hi_c <= cn,
            cn == collected@.len(),
            trimmed@ == collected@.subrange(lo_c as int, t as int),
        decreases hi_c - t,
    {
        trimmed.push(collected[t]);
        proof {
            assert(collected@.subrange(lo_c as int, t + 1) =~= collected@.subrange(
                lo_c as int,
                t as int,
            ).push(collected@[t as int]));
        }
        t = t + 1;
    }
    let excerpt = chars_to_string(&trimmed);
    proof {
        assert(excerpt@ == trimmed_chars(chars_in_window(content@, 0, start_u as int, end_u as int)));
    }
    SmartExcerpt {
        excerpt,
        start_pos: start_u as i64,
        end_pos: end_u as i64,
        current_position,
        total_length: total,
        excerpt_type: kind,
    }
}

} // verus!
