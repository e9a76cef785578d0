//! The cloze renderer: turns parsed cloze markup into presentation HTML.
//! The active deletion is hidden behind `[...]` (with its hint as an
//! attribute), every other deletion is shown; text taken from the source is
//! HTML-escaped.

use vstd::prelude::*;
use vstd::string::StrSliceExecFns;
use vstd::string::StringExecFns;
use crate::cloze_parser::ClozeParseError;
use crate::cloze_parser::ClozeParser;
use crate::cloze_parser::ClozeSegment;
use crate::cloze_parser::ParsedCloze;
use crate::cloze_parser::cloze_matches;
use crate::cloze_parser::digits_value;
use crate::cloze_parser::hint_pos;
use crate::cloze_parser::match_text_end;
use crate::cloze_parser::parse_ok;
use crate::cloze_parser::seg_matches;
use crate::cloze_parser::try_match;
use crate::cloze_parser::lemma_try_match_bounds;
use crate::text_units::chars_to_string;
use crate::text_units::string_chars;

verus! {

/// One deletion rendered to HTML.
#[derive(Debug, Clone)]
pub struct RenderedCloze {
    pub html: String,
    pub cloze_number: u32,
}

/// The escape of one character for HTML text and attribute positions.
pub open spec fn esc_char(c: char) -> Seq<char> {
    if c == '&' {
        seq!['&', 'a', 'm', 'p', ';']
    } else if c == '<' {
        seq!['&', 'l', 't', ';']
    } else if c == '>' {
        seq!['&', 'g', 't', ';']
    } else if c == '"' {
        seq!['&', 'q', 'u', 'o', 't', ';']
    } else if c == '\'' {
        seq!['&', '#', '3', '9', ';']
    } else {
        seq![c]
    }
}

/// The escape of a character sequence.
pub open spec fn esc_seq(s: Seq<char>) -> Seq<char>
    decreases s.len(),
{
    if s.len() == 0 {
        Seq::empty()
    } else {
        esc_seq(s.drop_last()) + esc_char(s.last())
    }
}

/// The HTML for one deletion form `m` of `s`: hidden when its number is the
/// active one, visible otherwise.
pub open spec fn render_match(s: Seq<char>, m: (int, int, int, int), active: int) -> Seq<char> {
    if digits_value(s, m.0, m.1) == active {
        "<span class=\"cloze-hidden\""@ + (match hint_pos(s, m.2, m.3) {
            Some(h) => " data-hint=\""@ + esc_seq(s.subrange(h + 2, m.3)) + "\""@,
            None => Seq::empty(),
        }) + ">[...]</span>"@
    } else {
        "<span class=\"cloze-visible\">"@ + esc_seq(s.subrange(m.2, match_text_end(s, m)))
            + "</span>"@
    }
}

/// The rendering of `s` from match `k` on, `last` being the end of what was
/// already emitted: plain text between deletions stays as it is.
pub open spec fn render_from(
    s: Seq<char>,
    ms: Seq<(int, int, int, int)>,
    k: int,
    last: int,
    active: int,
) -> Seq<char>
    decreases ms.len() - k,
{
    if k < 0 || k >= ms.len() {
        s.subrange(last, s.len() as int)
    } else {
        s.subrange(last, ms[k].0 - 3) + render_match(s, ms[k], active) + render_from(
            s,
            ms,
            k + 1,
            ms[k].3 + 2,
            active,
        )
    }
}

/// The whole text rendered with deletion `active` hidden.
pub open spec fn rendered_html(s: Seq<char>, active: int) -> Seq<char> {
    render_from(s, cloze_matches(s), 0, 0, active)
}

/// The rendering of `s` from match `k` on with every deletion shown as its
/// escaped text and the markup dropped.
pub open spec fn visible_from(
    s: Seq<char>,
    ms: Seq<(int, int, int, int)>,
    k: int,
    last: int,
) -> Seq<char>
    decreases ms.len() - k,
{
    if k < 0 || k >= ms.len() {
        s.subrange(last, s.len() as int)
    } else {
        s.subrange(last, ms[k].0 - 3) + esc_seq(s.subrange(ms[k].2, match_text_end(s, ms[k])))
            + visible_from(s, ms, k + 1, ms[k].3 + 2)
    }
}

/// The whole text with every deletion visible.
pub open spec fn all_visible(s: Seq<char>) -> Seq<char> {
    visible_from(s, cloze_matches(s), 0, 0)
}

/// Escapes `&`, `<`, `>`, `"` and `'` for HTML.
fn html_escape(text: &str) -> (r: String)
    ensures
        r@ == esc_seq(text@),
{
    let chars = string_chars(text);
    let n = chars.len();
    let mut out: Vec<char> = Vec::new();
    let mut i: usize = 0;
    while i < n
        invariant
            0 <= i <= n,
            chars@ == text@,
            n == text@.len(),
            out@ == esc_seq(text@.take(i as int)),
        decreases n - i,
    {
        let c = chars[i];
        proof {
            assert(text@.take(i + 1).drop_last() =~= text@.take(i as int));
            assert(text@.take(i + 1).last() == text@[i as int]);
        }
        let ghost old_out = out@;
        if c == '&' {
            out.push('&');
            out.push('a');
            out.push('m');
            out.push('p');
            out.push(';');
        } else if c == '<' {
            out.push('&');
            out.push('l');
            out.push('t');
            out.push(';');
        } else if c == '>' {
            out.push('&');
            out.push('g');
            out.push('t');
            out.push(';');
        } else if c == '"' {
            out.push('&');
            out.push('q');
            out.push('u');
            out.push('o');
            out.push('t');
            out.push(';');
        } else if c == '\'' {
            out.push('&');
            out.push('#');
            out.push('3');
            out.push('9');
            out.push(';');
        } else {
            out.push(c);
        }
        proof {
            assert(out@ =~= old_out + esc_char(c));
        }
        i = i + 1;
    }
    proof {
        assert(text@.take(text@.len() as int) =~= text@);
    }
    chars_to_string(&out)
}

/// Every match of a text starts after the previous one ends, and all spans
/// lie within the text.
pub proof fn lemma_matches_ordered(s: Seq<char>, i: int)
    requires
        0 <= i <= s.len(),
    ensures
        forall|k: int|
            0 <= k < crate::cloze_parser::matches_from(s, i).len() ==> {
                let m = #[trigger] crate::cloze_parser::matches_from(s, i)[k];
                &&& i <= m.0 - 3
                &&& m.0 < m.1 <= m.2 <= m.3
                &&& m.3 + 2 <= s.len()
            },
        forall|k: int|
            0 <= k && k + 1 < crate::cloze_parser::matches_from(s, i).len() ==> (
            #[trigger] crate::cloze_parser::matches_from(s, i)[k]).3 + 2
                <= crate::cloze_parser::matches_from(s, i)[k + 1].0 - 3,
    decreases s.len() - i,
{
    let ms = crate::cloze_parser::matches_from(s, i);
    if i < s.len() {
        match try_match(s, i) {
            Some(m) => {
                lemma_try_match_bounds(s, i);
                lemma_matches_ordered(s, m.3 + 2);
                let rest = crate::cloze_parser::matches_from(s, m.3 + 2);
                assert(ms =~= seq![m] + rest);
                assert(seq![m].len() == 1);
                assert((seq![m] + rest).len() == 1 + rest.len());
                assert(ms.len() == 1 + rest.len());
                assert forall|k: int| 0 <= k && k + 1 < ms.len() implies (#[trigger] ms[k]).3
                    + 2 <= ms[k + 1].0 - 3 by {
                    if k == 0 {
                        assert(ms[0] == m);
                        assert(ms[1] == (seq![m] + rest)[1]);
                        assert((seq![m] + rest)[1] == rest[0]);
                    } else {
                        vstd::seq::axiom_seq_add_index2::<(int, int, int, int)>(seq![m], rest, k);
                        vstd::seq::axiom_seq_add_index2::<(int, int, int, int)>(
                            seq![m],
                            rest,
                            k + 1,
                        );
                        assert(ms[k] == rest[k - 1]);
                        assert(ms[k + 1] == rest[k]);
                        assert(rest[k - 1].3 + 2 <= rest[k - 1 + 1].0 - 3);
                    }
                }
                assert forall|k: int| 0 <= k < ms.len() implies {
                    let mm = #[trigger] ms[k];
                    &&& i <= mm.0 - 3
                    &&& mm.0 < mm.1 <= mm.2 <= mm.3
                    &&& mm.3 + 2 <= s.len()
                } by {
                    if k == 0 {
                        assert(ms[0] == m);
                    } else {
                        vstd::seq::axiom_seq_add_index2::<(int, int, int, int)>(seq![m], rest, k);
                        assert(ms[k] == rest[k - 1]);
                    }
                }
            },
            None => {
                lemma_matches_ordered(s, i + 1);
                assert(ms =~= crate::cloze_parser::matches_from(s, i + 1));
            },
        }
    }
}

/// Some rendering in the list is for deletion number `v`.
pub open spec fn renders_number(rs: Seq<RenderedCloze>, v: u32) -> bool {
    exists|a: int| 0 <= a < rs.len() && (#[trigger] rs[a]).cloze_number == v
}

/// Some deletion form of the text uses number `v`.
pub open spec fn text_uses_number(s: Seq<char>, v: u32) -> bool {
    exists|k: int|
        0 <= k < cloze_matches(s).len() && digits_value(
            s,
            (#[trigger] cloze_matches(s)[k]).0,
            cloze_matches(s)[k].1,
        ) == v as int
}

/// The renderer for cloze markup.
pub struct ClozeRenderer;

impl ClozeRenderer {
    /// The HTML for one segment; the ghost match ties it to the source.
    fn segment_html(seg: &ClozeSegment, active_cloze: u32, Ghost(s): Ghost<Seq<char>>, Ghost(m): Ghost<(int, int, int, int)>) -> (r: String)
        requires
            seg_matches(s, *seg, m),
            3 <= m.0 < m.1 <= m.2 <= m.3,
            m.3 + 2 <= s.len(),
        ensures
            r@ == render_match(s, m, active_cloze as int),
    {
        let mut r = String::new();
        if seg.cloze_number == active_cloze {
            r.append("<span class=\"cloze-hidden\"");
            match &seg.hint {
                Some(h) => {
                    r.append(" data-hint=\"");
                    let eh = html_escape(h.as_str());
                    r.append(eh.as_str());
                    r.append("\"");
                },
                None => {},
            }
            r.append(">[...]</span>");
        } else {
            r.append("<span class=\"cloze-visible\">");
            let et = html_escape(seg.text.as_str());
            r.append(et.as_str());
            r.append("</span>");
        }
        r
    }

    /// Renders parsed markup with the given deletion hidden; the ghost
    /// matches tie the segments back to the source text.
    fn render_parsed(parsed: &ParsedCloze, active_cloze: u32, Ghost(ms): Ghost<
        Seq<(int, int, int, int)>,
    >) -> (r: String)
        requires
            parsed.segments@.len() == ms.len(),
            forall|k: int|
                0 <= k < ms.len() ==> seg_matches(
                    parsed.original_text@,
                    #[trigger] parsed.segments@[k],
                    ms[k],
                ),
            forall|k: int|
                0 <= k < ms.len() ==> {
                    let m = #[trigger] ms[k];
                    &&& 3 <= m.0 < m.1 <= m.2 <= m.3
                    &&& m.3 + 2 <= parsed.original_text@.len()
                },
            forall|k: int|
                0 <= k && k + 1 < ms.len() ==> (#[trigger] ms[k]).3 + 2 <= ms[k + 1].0 - 3,
        ensures
            r@ == render_from(parsed.original_text@, ms, 0, 0, active_cloze as int),
    {
        let ghost sv = parsed.original_text@;
        let mut result = String::new();
        let mut last_pos: usize = 0;
        let mut k: usize = 0;
        while k < parsed.segments.len()
            invariant
                0 <= k <= parsed.segments@.len(),
                sv == parsed.original_text@,
                parsed.segments@.len() == ms.len(),
                forall|j: int|
                    0 <= j < ms.len() ==> seg_matches(sv, #[trigger] parsed.segments@[j], ms[j]),
                forall|j: int|
                    0 <= j < ms.len() ==> {
                        let m = #[trigger] ms[j];
                        &&& 3 <= m.0 < m.1 <= m.2 <= m.3
                        &&& m.3 + 2 <= sv.len()
                    },
                forall|j: int|
                    0 <= j && j + 1 < ms.len() ==> (#[trigger] ms[j]).3 + 2 <= ms[j + 1].0 - 3,
                k < ms.len() ==> last_pos as int <= ms[k as int].0 - 3,
                k == ms.len() ==> last_pos as int <= sv.len(),
                result@ + render_from(sv, ms, k as int, last_pos as int, active_cloze as int)
                    == render_from(sv, ms, 0, 0, active_cloze as int),
            decreases parsed.segments@.len() - k,
        {
            let seg = &parsed.segments[k];
            proof {
                assert(seg_matches(sv, parsed.segments@[k as int], ms[k as int]));
            }
            let seg_start = seg.start_position;
            let seg_end = seg.end_position;
            let between = parsed.original_text.as_str().substring_char(last_pos, seg_start);
            result.append(between);
            let piece = Self::segment_html(
                seg,
                active_cloze,
                Ghost(sv),
                Ghost(ms[k as int]),
            );
            result.append(piece.as_str());
            proof {
                assert(render_from(sv, ms, k as int, last_pos as int, active_cloze as int)
                    == sv.subrange(last_pos as int, ms[k as int].0 - 3) + render_match(
                    sv,
                    ms[k as int],
                    active_cloze as int,
                ) + render_from(
                    sv,
                    ms,
                    k as int + 1,
                    ms[k as int].3 + 2,
                    active_cloze as int,
                ));
            }
            last_pos = seg_end;
            k = k + 1;
        }
        proof {
            assert(render_from(sv, ms, k as int, last_pos as int, active_cloze as int)
                == sv.subrange(last_pos as int, sv.len() as int));
        }
        let tail = parsed.original_text.as_str().substring_char(
            last_pos,
            parsed.original_text.as_str().unicode_len(),
        );
        result.append(tail);
        result
    }

    /// Renders the text with the given deletion hidden and every other
    /// deletion visible.
    pub fn render(text: &str, active_cloze: u32) -> (result: Result<RenderedCloze, ClozeParseError>)
        ensures
            result is Ok <==> parse_ok(text@),
            result matches Ok(r) ==> r.cloze_number == active_cloze && r.html@ == rendered_html(
                text@,
                active_cloze as int,
            ),
    {
        let parsed = match ClozeParser::parse(text) {
            Ok(p) => p,
            Err(e) => {
                return Err(e);
            },
        };
        proof {
            lemma_matches_ordered(text@, 0);
        }
        let html = Self::render_parsed(&parsed, active_cloze, Ghost(cloze_matches(text@)));
        Ok(RenderedCloze { html, cloze_number: active_cloze })
    }

    /// Renders the text once for each distinct deletion number, in
    /// increasing order.
    pub fn render_all(text: &str) -> (result: Result<Vec<RenderedCloze>, ClozeParseError>)
        ensures
            result is Ok <==> parse_ok(text@),
            result matches Ok(rs) ==> {
                &&& forall|a: int, b: int|
                    0 <= a < b < rs@.len() ==> (#[trigger] rs@[a]).cloze_number < (
                    #[trigger] rs@[b]).cloze_number
                &&& forall|v: u32| #[trigger] renders_number(rs@, v) <==> text_uses_number(
                    text@,
                    v,
                )
                &&& forall|a: int|
                    0 <= a < rs@.len() ==> (#[trigger] rs@[a]).html@ == rendered_html(
                        text@,
                        rs@[a].cloze_number as int,
                    )
            },
    {
        let cloze_numbers = match ClozeParser::extract_cloze_numbers(text) {
            Ok(ns) => ns,
            Err(e) => {
                return Err(e);
            },
        };
        let mut rendered: Vec<RenderedCloze> = Vec::new();
        let mut i: usize = 0;
        while i < cloze_numbers.len()
            invariant
                0 <= i <= cloze_numbers@.len(),
                parse_ok(text@),
                forall|a: int, b: int|
                    0 <= a < b < cloze_numbers@.len() ==> cloze_numbers@[a] < cloze_numbers@[b],
                forall|v: u32|
                    cloze_numbers@.contains(v) <==> (exists|k: int|
                        0 <= k < cloze_matches(text@).len() && digits_value(
                            text@,
                            (#[trigger] cloze_matches(text@)[k]).0,
                            cloze_matches(text@)[k].1,
                        ) == v as int),
                rendered@.len() == i,
                forall|a: int|
                    0 <= a < i ==> (#[trigger] rendered@[a]).cloze_number == cloze_numbers@[a],
                forall|a: int|
                    0 <= a < i ==> (#[trigger] rendered@[a]).html@ == rendered_html(
                        text@,
                        cloze_numbers@[a] as int,
                    ),
            decreases cloze_numbers@.len() - i,
        {
            let num = cloze_numbers[i];
            let one = match Self::render(text, num) {
                Ok(r) => r,
                Err(_) => {
                    proof {
                        assert(false);
                    }
                    return Err(ClozeParseError::UnmatchedBraces);
                },
            };
            rendered.push(one);
            i = i + 1;
        }
        proof {
            assert forall|v: u32| #[trigger] renders_number(rendered@, v) <==> text_uses_number(
                text@,
                v,
            ) by {
                if renders_number(rendered@, v) {
                    let a = choose|a: int|
                        0 <= a < rendered@.len() && (#[trigger] rendered@[a]).cloze_number == v;
                    assert(cloze_numbers@[a] == v);
                    assert(cloze_numbers@.contains(v));
                }
                if text_uses_number(text@, v) {
                    assert(cloze_numbers@.contains(v));
                    let a = choose|a: int|
                        0 <= a < cloze_numbers@.len() && cloze_numbers@[a] == v;
                    assert(rendered@[a].cloze_number == v);
                }
            }
        }
        Ok(rendered)
    }

    /// Renders the text with every deletion replaced by its escaped hidden
    /// text: the markup disappears.
    pub fn render_with_all_visible(text: &str) -> (result: Result<String, ClozeParseError>)
        ensures
            result is Ok <==> parse_ok(text@),
            result matches Ok(r) ==> r@ == all_visible(text@),
    {
        let parsed = match ClozeParser::parse(text) {
            Ok(p) => p,
            Err(e) => {
                return Err(e);
            },
        };
        proof {
            lemma_matches_ordered(text@, 0);
        }
        let ghost sv = text@;
        let ghost ms = cloze_matches(text@);
        let mut result = String::new();
        let mut last_pos: usize = 0;
        let mut k: usize = 0;
        while k < parsed.segments.len()
            invariant
                0 <= k <= parsed.segments@.len(),
                sv == text@,
                ms == cloze_matches(text@),
                sv == parsed.original_text@,
                parsed.segments@.len() == ms.len(),
                forall|j: int|
                    0 <= j < ms.len() ==> seg_matches(sv, #[trigger] parsed.segments@[j], ms[j]),
                forall|j: int|
                    0 <= j < ms.len() ==> {
                        let m = #[trigger] ms[j];
                        &&& 3 <= m.0 < m.1 <= m.2 <= m.3
                        &&& m.3 + 2 <= sv.len()
                    },
                forall|j: int|
                    0 <= j && j + 1 < ms.len() ==> (#[trigger] ms[j]).3 + 2 <= ms[j + 1].0 - 3,
                k < ms.len() ==> last_pos as int <= ms[k as int].0 - 3,
                k == ms.len() ==> last_pos as int <= sv.len(),
                result@ + visible_from(sv, ms, k as int, last_pos as int) == all_visible(sv),
            decreases parsed.segments@.len() - k,
        {
            let seg = &parsed.segments[k];
            proof {
                assert(seg_matches(sv, parsed.segments@[k as int], ms[k as int]));
            }
            let between = parsed.original_text.as_str().substring_char(
                last_pos,
                seg.start_position,
            );
            result.append(between);
            let et = html_escape(seg.text.as_str());
            result.append(et.as_str());
            proof {
                assert(visible_from(sv, ms, k as int, last_pos as int) == sv.subrange(
                    last_pos as int,
                    ms[k as int].0 - 3,
                ) + esc_seq(sv.subrange(ms[k as int].2, match_text_end(sv, ms[k as int])))
                    + visible_from(sv, ms, k as int + 1, ms[k as int].3 + 2));
            }
            last_pos = seg.end_position;
            k = k + 1;
        }
        proof {
            assert(visible_from(sv, ms, k as int, last_pos as int) == sv.subrange(
                last_pos as int,
                sv.len() as int,
            ));
        }
        let tail = parsed.original_text.as_str().substring_char(
            last_pos,
            parsed.original_text.as_str().unicode_len(),
        );
        result.append(tail);
        Ok(result)
    }

    /// The text with cloze markup stripped; a text that does not parse is
    /// returned unchanged.
    pub fn strip_cloze_syntax(text: &str) -> (r: String)
        ensures
            parse_ok(text@) ==> r@ == all_visible(text@),
            !parse_ok(text@) ==> r@ == text@,
    {
        match Self::render_with_all_visible(text) {
            Ok(stripped) => stripped,
            Err(_) => text.to_owned(),
        }
    }
}

} // verus!
