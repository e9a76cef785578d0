//! The unread-insertion policy: given a freshly read interval and the already
//! persisted read ranges, compute only the genuinely unread sub-intervals to
//! persist, splitting any attached character/word counters proportionally.

use vstd::prelude::*;
use vstd::arithmetic::div_mod::lemma_div_multiples_vanish;
use crate::ranges::ReadRange;
use crate::ranges::covers;
use crate::ranges::view_of_pairs;
use crate::ranges::view_of_ranges;
use crate::errors::EngineError;

verus! {

/// Well-formed stored intervals: `0 <= start < end` for every range.
pub open spec fn ranges_strict_wf(s: Seq<(int, int)>) -> bool {
    forall|i: int| 0 <= i < s.len() ==> 0 <= (#[trigger] s[i]).0 < s[i].1
}

/// What `calculate_unread_portions` establishes: `out` covers exactly the
/// points of `[s, e)` that `existing` leaves unread, as sorted, disjoint,
/// non-empty sub-intervals of `[s, e)`.
pub open spec fn unread_post(s: int, e: int, existing: Seq<(int, int)>, out: Seq<(int, int)>) -> bool {
    &&& forall|p: int| #[trigger] covers(out, p) <==> (s <= p < e && !covers(existing, p))
    &&& forall|i: int| 0 <= i < out.len() ==> s <= (#[trigger] out[i]).0 <= out[i].1 <= e
    &&& forall|i: int, j: int|
        0 <= i < j < out.len() ==> (#[trigger] out[i]).1 < (#[trigger] out[j]).0
    &&& (s < e ==> forall|i: int| 0 <= i < out.len() ==> (#[trigger] out[i]).0 < out[i].1)
}

proof fn lemma_covers_concat(a: Seq<(int, int)>, b: Seq<(int, int)>)
    ensures
        forall|p: int| #[trigger] covers(a + b, p) <==> (covers(a, p) || covers(b, p)),
{
    assert forall|p: int| #[trigger] covers(a + b, p) implies (covers(a, p) || covers(b, p)) by {
        let i = choose|i: int| 0 <= i < (a + b).len() && (#[trigger] (a + b)[i]).0 <= p < (a + b)[i].1;
        if i < a.len() {
            assert(a[i] == (a + b)[i]);
        } else {
            assert(b[i - a.len()] == (a + b)[i]);
        }
    }
    assert forall|p: int| (covers(a, p) || covers(b, p)) implies #[trigger] covers(a + b, p) by {
        if covers(a, p) {
            let i = choose|i: int| 0 <= i < a.len() && (#[trigger] a[i]).0 <= p < a[i].1;
            assert((a + b)[i] == a[i]);
        } else {
            let i = choose|i: int| 0 <= i < b.len() && (#[trigger] b[i]).0 <= p < b[i].1;
            assert((a + b)[a.len() + i] == b[i]);
        }
    }
}

/// The portions of `[new_start, new_end)` not already covered by
/// `existing`, left to right.
pub fn calculate_unread_portions(new_start: i64, new_end: i64, existing: &Vec<ReadRange>) -> (out: Vec<(i64, i64)>)
    requires
        0 <= new_start <= new_end,
        ranges_strict_wf(view_of_ranges(existing@)),
    ensures
        unread_post(
            new_start as int,
            new_end as int,
            view_of_ranges(existing@),
            view_of_pairs(out@),
        ),
{
    let ghost s = new_start as int;
    let ghost e = new_end as int;
    let ghost iv = view_of_ranges(existing@);

    // keep only the stored ranges that overlap the new interval
    let mut overlapping: Vec<ReadRange> = Vec::new();
    let mut i: usize = 0;
    while i < existing.len()
        invariant
            i <= existing.len(),
            iv == view_of_ranges(existing@),
            ranges_strict_wf(iv),
            s == new_start as int,
            e == new_end as int,
            0 <= s <= e,
            ranges_strict_wf(view_of_ranges(overlapping@)),
            forall|a: int|
                0 <= a < overlapping@.len() ==> (#[trigger] view_of_ranges(overlapping@)[a]).1 > s
                    && view_of_ranges(overlapping@)[a].0 < e,
            forall|p: int|
                s <= p < e ==> (#[trigger] covers(iv.take(i as int), p) <==> covers(
                    view_of_ranges(overlapping@),
                    p,
                )),
        decreases existing.len() - i,
    {
        let r = existing[i];
        let ghost old_ov = view_of_ranges(overlapping@);
        proof {
            crate::ranges::lemma_covers_take_step(iv, i as int);
        }
        if r.end_position > new_start && r.start_position < new_end {
            overlapping.push(r);
            proof {
                assert(view_of_ranges(overlapping@) =~= old_ov.push(
                    (r.start_position as int, r.end_position as int),
                ));
                crate::ranges::lemma_covers_push(
                    old_ov,
                    (r.start_position as int, r.end_position as int),
                );
            }
        } else {
            proof {
                assert(iv[i as int] == (r.start_position as int, r.end_position as int));
                assert(iv[i as int].1 <= s || iv[i as int].0 >= e);
            }
        }
        i = i + 1;
    }
    proof {
        assert(iv.take(existing@.len() as int) =~= iv);
    }

    if overlapping.len() == 0 {
        let mut out: Vec<(i64, i64)> = Vec::new();
        out.push((new_start, new_end));
        proof {
            assert(view_of_pairs(out@) =~= view_of_pairs(Seq::empty()).push((s, e)));
            crate::ranges::lemma_covers_push(view_of_pairs(Seq::empty()), (s, e));
            assert(forall|p: int| !covers(view_of_ranges(overlapping@), p));
        }
        return out;
    }

    let sorted = crate::ranges::sorted_ranges(&overlapping);
    let ghost sv = view_of_ranges(sorted@);
    proof {
        crate::ranges::lemma_same_multiset_same_cover(overlapping@, sorted@);
        // element-wise facts carry over to the sorted copy
        assert forall|a: int| 0 <= a < sv.len() implies 0 <= (#[trigger] sv[a]).0 < sv[a].1
            && sv[a].1 > s && sv[a].0 < e by {
            broadcast use vstd::seq_lib::group_to_multiset_ensures;

            let r = sorted@[a];
            assert(sorted@.contains(r)) by {
                assert(sorted@[a] == r);
            }
            assert(sorted@.to_multiset().count(r) > 0);
            assert(overlapping@.to_multiset().count(r) > 0);
            assert(overlapping@.contains(r));
            let j = choose|j: int| 0 <= j < overlapping@.len() && overlapping@[j] == r;
            assert(view_of_ranges(overlapping@)[j] == sv[a]);
        }
    }

    let mut out: Vec<(i64, i64)> = Vec::new();
    let mut cur = new_start;
    let mut k: usize = 0;
    while k < sorted.len()
        invariant
            k <= sorted.len(),
            sv == view_of_ranges(sorted@),
            crate::ranges::sorted_by_start(sv),
            forall|a: int|
                0 <= a < sv.len() ==> 0 <= (#[trigger] sv[a]).0 < sv[a].1 && sv[a].1 > s && sv[a].0
                    < e,
            s == new_start as int,
            e == new_end as int,
            0 <= s <= e,
            s <= cur as int <= e,
            forall|i: int|
                0 <= i < out@.len() ==> s <= (#[trigger] view_of_pairs(out@)[i]).0
                    < view_of_pairs(out@)[i].1 <= e,
            forall|i: int, j: int|
                0 <= i < j < out@.len() ==> (#[trigger] view_of_pairs(out@)[i]).1 < (
                #[trigger] view_of_pairs(out@)[j]).0,
            forall|i: int| 0 <= i < out@.len() ==> (#[trigger] view_of_pairs(out@)[i]).1 < cur as int,
            forall|i: int, j: int|
                0 <= i < out@.len() && k <= j < sv.len() ==> (#[trigger] view_of_pairs(out@)[i]).1
                    <= (#[trigger] sv[j]).0,
            forall|j: int|
                0 <= j < k ==> (if (#[trigger] sv[j]).1 < e { sv[j].1 } else { e }) <= cur as int,
            forall|p: int|
                #[trigger] covers(view_of_pairs(out@), p) <==> (s <= p < cur as int && !covers(
                    sv.take(k as int),
                    p,
                )),
        decreases sorted.len() - k,
    {
        let rs = sorted[k].start_position;
        let re = sorted[k].end_position;
        let range_start = if rs > new_start { rs } else { new_start };
        let range_end = if re < new_end { re } else { new_end };
        let ghost cur_old = cur as int;
        let ghost old_out = view_of_pairs(out@);
        proof {
            assert(sv[k as int] == (rs as int, re as int));
            crate::ranges::lemma_covers_take_step(sv, k as int);
        }
        if range_start > cur {
            proof {
                // the gap starts past `cur >= s`, so it is the range's own start
                assert(range_start as int == sv[k as int].0);
            }
            out.push((cur, range_start));
            proof {
                assert(view_of_pairs(out@) =~= old_out.push((cur as int, range_start as int)));
                crate::ranges::lemma_covers_push(old_out, (cur as int, range_start as int));
            }
        }
        if range_end > cur {
            cur = range_end;
        }
        proof {
            let out_new = view_of_pairs(out@);
            let kk = k as int;
            assert forall|p: int| #[trigger] covers(out_new, p) implies (s <= p && p < cur as int
                && !covers(sv.take(kk + 1), p)) by {
                if covers(old_out, p) {
                    assert(s <= p && p < cur_old);
                    assert(!covers(sv.take(kk), p));
                    let i = choose|i: int|
                        0 <= i < old_out.len() && (#[trigger] old_out[i]).0 <= p < old_out[i].1;
                    assert(old_out[i].1 <= sv[kk].0);
                    assert(!(sv[kk].0 <= p && p < sv[kk].1));
                } else {
                    // `p` lies in the gap pushed this iteration
                    assert(range_start as int > cur_old);
                    assert(cur_old <= p && p < range_start as int);
                    assert(!(sv[kk].0 <= p && p < sv[kk].1));
                    assert(!covers(sv.take(kk), p)) by {
                        if covers(sv.take(kk), p) {
                            let j = choose|j: int|
                                0 <= j < sv.take(kk).len() && (#[trigger] sv.take(kk)[j]).0 <= p
                                    < sv.take(kk)[j].1;
                            assert((if sv[j].1 < e { sv[j].1 } else { e }) <= cur_old);
                        }
                    }
                }
            }
            assert forall|p: int| (s <= p && p < cur as int && !covers(sv.take(kk + 1), p))
                implies #[trigger] covers(out_new, p) by {
                assert(!(sv[kk].0 <= p && p < sv[kk].1));
                if p < cur_old {
                    assert(covers(old_out, p));
                    let i = choose|i: int|
                        0 <= i < old_out.len() && (#[trigger] old_out[i]).0 <= p < old_out[i].1;
                    if (range_start as int) > cur_old {
                        assert(out_new[i] == old_out[i]);
                    } else {
                        assert(out_new == old_out);
                    }
                    assert(covers(out_new, p));
                } else {
                    // `cur` moved, so this range reaches past `cur_old`
                    assert(cur as int == range_end as int);
                    // `p` is not inside the clamped range, so it precedes it
                    assert(p < range_end as int);
                    assert(range_end as int <= sv[kk].1);
                    if sv[kk].0 <= p {
                        assert(p < sv[kk].1);
                        assert(false);
                    }
                    assert(p < sv[kk].0);
                    assert(range_start as int > cur_old);
                    assert(covers(out_new, p)) by {
                        assert(out_new[old_out.len() as int] == (cur_old, range_start as int));
                    }
                }
            }
        }
        k = k + 1;
    }
    proof {
        assert(sv.take(sorted@.len() as int) =~= sv);
    }
    let ghost old_out = view_of_pairs(out@);
    if cur < new_end {
        out.push((cur, new_end));
        proof {
            assert(view_of_pairs(out@) =~= old_out.push((cur as int, e)));
            crate::ranges::lemma_covers_push(old_out, (cur as int, e));
        }
    }
    proof {
        assert forall|p: int| #[trigger] covers(view_of_pairs(out@), p) implies (s <= p < e
            && !covers(iv, p)) by {
            assert(covers(sv, p) <==> covers(view_of_ranges(overlapping@), p));
        }
        assert forall|p: int| (s <= p < e && !covers(iv, p)) implies #[trigger] covers(
            view_of_pairs(out@),
            p,
        ) by {
            assert(covers(sv, p) <==> covers(view_of_ranges(overlapping@), p));
        }
    }
    out
}

/// One interval to persist, with its proportionally scaled counters.
#[derive(Clone, Copy, Debug)]
pub struct RangeInsertion {
    pub start_position: i64,
    pub end_position: i64,
    pub character_count: Option<i64>,
    pub word_count: Option<i64>,
}

/// The spans of a list of planned insertions.
pub open spec fn insertion_spans(s: Seq<RangeInsertion>) -> Seq<(int, int)> {
    s.map_values(|r: RangeInsertion| (r.start_position as int, r.end_position as int))
}

/// A counter scaled down to a sub-interval: `total * sub_len / orig_len`,
/// truncated, floored at 1; an empty original interval keeps the whole
/// counter.
pub open spec fn scaled_count(total: int, sub_len: int, orig_len: int) -> int {
    if orig_len > 0 {
        let scaled = total * sub_len / orig_len;
        if scaled >= 1 {
            scaled
        } else {
            1
        }
    } else {
        total
    }
}

/// A counter option scaled to a sub-interval, `None` passed through.
pub open spec fn scaled_count_opt(total: Option<i64>, sub_len: int, orig_len: int) -> Option<i64> {
    match total {
        Some(c) => Some(scaled_count(c as int, sub_len, orig_len) as i64),
        None => None,
    }
}

fn scale_counter(total: Option<i64>, sub_len: i64, orig_len: i64) -> (r: Option<i64>)
    requires
        0 <= sub_len <= orig_len,
        match total {
            Some(c) => 0 <= c && (c as int) * (orig_len as int) <= i64::MAX as int,
            None => true,
        },
    ensures
        r == scaled_count_opt(total, sub_len as int, orig_len as int),
{
    match total {
        Some(c) => {
            if orig_len > 0 {
                proof {
                    assert(0 <= (c as int) * (sub_len as int) <= (c as int) * (orig_len as int))
                        by (nonlinear_arith)
                        requires
                            0 <= c,
                            0 <= sub_len <= orig_len,
                    ;
                }
                let scaled = c * sub_len / orig_len;
                proof {
                    assert(scaled == scaled_count(c as int, sub_len as int, orig_len as int)
                        || scaled < 1);
                }
                if scaled >= 1 {
                    Some(scaled)
                } else {
                    Some(1)
                }
            } else {
                Some(c)
            }
        },
        None => None,
    }
}

/// The plan for marking `[start_pos, end_pos)` as read: the unread portions
/// of the interval, each with its share of the supplied counters. Malformed
/// intervals are rejected, never clamped.
pub fn mark_range_as_read(
    start_pos: i64,
    end_pos: i64,
    content_length: i64,
    character_count: Option<i64>,
    word_count: Option<i64>,
    existing: &Vec<ReadRange>,
) -> (result: Result<Vec<RangeInsertion>, EngineError>)
    requires
        0 <= content_length,
        ranges_strict_wf(view_of_ranges(existing@)),
        match character_count {
            Some(c) => 0 <= c && (c as int) * (content_length as int) <= i64::MAX as int,
            None => true,
        },
        match word_count {
            Some(w) => 0 <= w && (w as int) * (content_length as int) <= i64::MAX as int,
            None => true,
        },
    ensures
        result is Err <==> (start_pos < 0 || end_pos < start_pos || end_pos > content_length),
        result is Err ==> result->Err_0 == EngineError::InvalidOffset,
        result matches Ok(out) ==> {
            &&& unread_post(
                start_pos as int,
                end_pos as int,
                view_of_ranges(existing@),
                insertion_spans(out@),
            )
            &&& forall|i: int|
                0 <= i < out@.len() ==> (#[trigger] out@[i]).character_count == scaled_count_opt(
                    character_count,
                    out@[i].end_position - out@[i].start_position,
                    end_pos - start_pos,
                )
            &&& forall|i: int|
                0 <= i < out@.len() ==> (#[trigger] out@[i]).word_count == scaled_count_opt(
                    word_count,
                    out@[i].end_position - out@[i].start_position,
                    end_pos - start_pos,
                )
        },
{
    if start_pos < 0 || end_pos < start_pos || end_pos > content_length {
        return Err(EngineError::InvalidOffset);
    }
    let portions = calculate_unread_portions(start_pos, end_pos, existing);
    let original_length = end_pos - start_pos;
    let mut out: Vec<RangeInsertion> = Vec::new();
    let mut i: usize = 0;
    while i < portions.len()
        invariant
            i <= portions.len(),
            0 <= start_pos <= end_pos <= content_length,
            original_length == end_pos - start_pos,
            forall|a: int|
                0 <= a < portions@.len() ==> start_pos as int <= (#[trigger] view_of_pairs(
                    portions@,
                )[a]).0 <= view_of_pairs(portions@)[a].1 <= end_pos as int,
            match character_count {
                Some(c) => 0 <= c && (c as int) * (content_length as int) <= i64::MAX as int,
                None => true,
            },
            match word_count {
                Some(w) => 0 <= w && (w as int) * (content_length as int) <= i64::MAX as int,
                None => true,
            },
            out@.len() == i,
            forall|a: int|
                0 <= a < i ==> (#[trigger] out@[a]).start_position == portions@[a].0
                    && out@[a].end_position == portions@[a].1,
            forall|a: int|
                0 <= a < i ==> (#[trigger] out@[a]).character_count == scaled_count_opt(
                    character_count,
                    out@[a].end_position - out@[a].start_position,
                    end_pos - start_pos,
                ),
            forall|a: int|
                0 <= a < i ==> (#[trigger] out@[a]).word_count == scaled_count_opt(
                    word_count,
                    out@[a].end_position - out@[a].start_position,
                    end_pos - start_pos,
                ),
        decreases portions.len() - i,
    {
        let (ps, pe) = portions[i];
        proof {
            assert(view_of_pairs(portions@)[i as int] == (ps as int, pe as int));
            assert((c_bound_holds(character_count, original_length))) by {
                c_bound_weaken(character_count, content_length, original_length);
            }
            assert((c_bound_holds(word_count, original_length))) by {
                c_bound_weaken(word_count, content_length, original_length);
            }
        }
        let sub_len = pe - ps;
        let cc = scale_counter(character_count, sub_len, original_length);
        let wc = scale_counter(word_count, sub_len, original_length);
        out.push(RangeInsertion {
            start_position: ps,
            end_position: pe,
            character_count: cc,
            word_count: wc,
        });
        i = i + 1;
    }
    proof {
        assert(insertion_spans(out@) =~= view_of_pairs(portions@));
    }
    Ok(out)
}

/// The counter bound needed by `scale_counter` for a given original length.
spec fn c_bound_holds(total: Option<i64>, orig_len: i64) -> bool {
    match total {
        Some(c) => 0 <= c && (c as int) * (orig_len as int) <= i64::MAX as int,
        None => true,
    }
}

proof fn c_bound_weaken(total: Option<i64>, content_length: i64, orig_len: i64)
    requires
        0 <= orig_len <= content_length,
        c_bound_holds(total, content_length),
    ensures
        c_bound_holds(total, orig_len),
{
    match total {
        Some(c) => {
            assert((c as int) * (orig_len as int) <= (c as int) * (content_length as int))
                by (nonlinear_arith)
                requires
                    0 <= c,
                    0 <= orig_len <= content_length,
            ;
        },
        None => {},
    }
}

/// The sum of `scaled_count(c, len_i, orig)` over the intervals of `out`.
pub open spec fn scaled_sum(c: int, orig: int, out: Seq<(int, int)>) -> int
    decreases out.len(),
{
    if out.len() == 0 {
        0
    } else {
        scaled_sum(c, orig, out.drop_last()) + scaled_count(
            c,
            out.last().1 - out.last().0,
            orig,
        )
    }
}

/// Inserting the same interval twice is idempotent: once the portions of the
/// first call are stored beside the ranges they were computed against, a
/// second call for the same interval returns no portion at all.
pub proof fn lemma_insertion_idempotent(
    s: int,
    e: int,
    existing: Seq<(int, int)>,
    first: Seq<(int, int)>,
    second: Seq<(int, int)>,
)
    requires
        s < e,
        unread_post(s, e, existing, first),
        unread_post(s, e, existing + first, second),
    ensures
        second.len() == 0,
{
    lemma_covers_concat(existing, first);
    if second.len() > 0 {
        let p = second[0].0;
        assert(covers(second, p)) by {
            assert(second[0].0 <= p < second[0].1);
        }
        assert(s <= p < e && !covers(existing + first, p));
        assert(covers(first, p));
        assert(false);
    }
}

/// When nothing previously overlaps the new interval, the policy returns the
/// interval whole, and the scaled counter sum is exactly the supplied
/// counter: nothing is lost or invented by the proportional split.
pub proof fn lemma_proportional_split_conservation(
    s: int,
    e: int,
    existing: Seq<(int, int)>,
    out: Seq<(int, int)>,
    c: int,
)
    requires
        s < e,
        1 <= c,
        unread_post(s, e, existing, out),
        forall|p: int| s <= p < e ==> !covers(existing, p),
    ensures
        out =~= seq![(s, e)],
        scaled_sum(c, e - s, out) == c,
{
    assert(covers(out, s));
    let i0 = choose|i: int| 0 <= i < out.len() && (#[trigger] out[i]).0 <= s < out[i].1;
    assert(out[i0].0 == s);
    if i0 > 0 {
        assert(out[0].1 < out[i0].0);
        assert(out[0].0 < out[0].1);
        assert(false);
    }
    if out.len() > 1 {
        let g = out[0].1;
        assert(out[0].1 < out[1].0);
        assert(s <= g < e);
        assert(covers(out, g));
        let j = choose|j: int| 0 <= j < out.len() && (#[trigger] out[j]).0 <= g < out[j].1;
        if j > 0 {
            assert(out[0].1 < out[j].0);
        }
        assert(false);
    }
    assert(covers(out, e - 1));
    let j1 = choose|j: int| 0 <= j < out.len() && (#[trigger] out[j]).0 <= e - 1 < out[j].1;
    assert(j1 == 0);
    assert(out[0].1 == e);
    assert(out =~= seq![(s, e)]);
    assert(out.drop_last() =~= Seq::<(int, int)>::empty());
    assert(scaled_sum(c, e - s, out.drop_last()) == 0);
    assert(out.last() == (s, e));
    assert(scaled_sum(c, e - s, out) == scaled_sum(c, e - s, out.drop_last()) + scaled_count(
        c,
        out.last().1 - out.last().0,
        e - s,
    ));
    assert(scaled_sum(c, e - s, out) == scaled_count(c, e - s, e - s));
    let d = e - s;
    lemma_div_multiples_vanish(c, d);
    assert(d * c == c * d) by (nonlinear_arith);
    assert(c * d / d == c);
}

} // verus!
