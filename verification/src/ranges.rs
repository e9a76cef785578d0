//! Interval arithmetic over half-open `[start,end)` spans of UTF-16 code
//! units: merging a set of read ranges into a minimal sorted cover, measuring
//! the union, point containment, and the complement against `[0, total)`.

use vstd::prelude::*;
use vstd::set_lib::set_int_range;
use vstd::set_lib::lemma_int_range;
use vstd::set_lib::lemma_set_disjoint_lens;
use vstd::multiset::Multiset;

verus! {

/// A stored span of already-read text, half-open `[start,end)` in UTF-16
/// code units.
#[derive(Clone, Copy, Debug)]
pub struct ReadRange {
    pub start_position: i64,
    pub end_position: i64,
}

/// The mathematical reading of a range list: each entry as a pair of integers.
pub open spec fn view_of_ranges(s: Seq<ReadRange>) -> Seq<(int, int)> {
    s.map_values(|r: ReadRange| (r.start_position as int, r.end_position as int))
}

/// The mathematical reading of a list of `(start, end)` pairs.
pub open spec fn view_of_pairs(s: Seq<(i64, i64)>) -> Seq<(int, int)> {
    s.map_values(|r: (i64, i64)| (r.0 as int, r.1 as int))
}

/// A well-formed interval: non-negative start, end not before start.
pub open spec fn range_wf(r: (int, int)) -> bool {
    0 <= r.0 <= r.1
}

pub open spec fn ranges_wf(s: Seq<(int, int)>) -> bool {
    forall|i: int| 0 <= i < s.len() ==> range_wf(#[trigger] s[i])
}

/// Point `p` lies inside some interval of `s`.
pub open spec fn covers(s: Seq<(int, int)>, p: int) -> bool {
    exists|i: int| 0 <= i < s.len() && (#[trigger] s[i]).0 <= p < s[i].1
}

/// The set of points covered by `s`: the interval list read as a set union.
pub open spec fn covered_points(s: Seq<(int, int)>) -> Set<int> {
    Set::new(|p: int| covers(s, p))
}

/// Sum of the extents of the intervals of `s`.
pub open spec fn span_sum(s: Seq<(int, int)>) -> int
    decreases s.len(),
{
    if s.len() == 0 {
        0
    } else {
        span_sum(s.drop_last()) + (s.last().1 - s.last().0)
    }
}

/// Intervals in strictly increasing order with a gap between any two, so
/// touching intervals have been fused.
pub open spec fn separated(s: Seq<(int, int)>) -> bool {
    forall|i: int, j: int|
        0 <= i < j < s.len() ==> (#[trigger] s[i]).1 < (#[trigger] s[j]).0
}

/// The shape of a minimal cover: well-formed, non-empty intervals, strictly
/// separated (hence sorted).
pub open spec fn merged_cover_wf(s: Seq<(int, int)>) -> bool {
    &&& ranges_wf(s)
    &&& separated(s)
    &&& forall|i: int| 0 <= i < s.len() ==> (#[trigger] s[i]).0 < s[i].1
}

pub open spec fn sorted_by_start(s: Seq<(int, int)>) -> bool {
    forall|i: int, j: int|
        0 <= i <= j < s.len() ==> (#[trigger] s[i]).0 <= (#[trigger] s[j]).0
}

/// What `RangeCalculator::merge` establishes: the output is a minimal sorted
/// cover of exactly the points the input covers.
pub open spec fn merge_post(input: Seq<(int, int)>, output: Seq<(int, int)>) -> bool {
    &&& merged_cover_wf(output)
    &&& forall|p: int| #[trigger] covers(output, p) <==> covers(input, p)
}

/// What `RangeCalculator::get_unread_ranges` establishes: the output covers
/// exactly the points of `[0, total)` the input leaves unread, as
/// non-empty, strictly separated gaps in increasing order within bounds —
/// the gaps of the minimal merged cover. In particular, touching read
/// ranges leave no gap between them, and a fully covered or zero-length
/// document leaves no gap at all.
pub open spec fn complement_post(total: int, input: Seq<(int, int)>, output: Seq<(int, int)>) -> bool {
    &&& forall|p: int| #[trigger] covers(output, p) <==> (0 <= p < total && !covers(input, p))
    &&& forall|i: int| 0 <= i < output.len() ==> 0 <= (#[trigger] output[i]).0 < output[i].1 <= total
    &&& forall|i: int, j: int|
        0 <= i < j < output.len() ==> (#[trigger] output[i]).1 < (#[trigger] output[j]).0
}

pub(crate) proof fn lemma_covers_push(s: Seq<(int, int)>, x: (int, int))
    ensures
        forall|p: int| #[trigger] covers(s.push(x), p) <==> (covers(s, p) || (x.0 <= p < x.1)),
{
    assert forall|p: int| #[trigger] covers(s.push(x), p) implies (covers(s, p) || (x.0 <= p < x.1)) by {
        let i = choose|i: int| 0 <= i < s.push(x).len() && (#[trigger] s.push(x)[i]).0 <= p < s.push(x)[i].1;
        if i < s.len() {
            assert(s[i] == s.push(x)[i]);
            assert(covers(s, p));
        } else {
            assert(s.push(x)[i] == x);
        }
    }
    assert forall|p: int| (covers(s, p) || (x.0 <= p < x.1)) implies #[trigger] covers(s.push(x), p) by {
        if covers(s, p) {
            let i = choose|i: int| 0 <= i < s.len() && (#[trigger] s[i]).0 <= p < s[i].1;
            assert(s.push(x)[i] == s[i]);
        } else {
            assert(s.push(x)[s.len() as int] == x);
        }
    }
}

pub(crate) proof fn lemma_covers_take_step(s: Seq<(int, int)>, k: int)
    requires
        0 <= k < s.len(),
    ensures
        forall|p: int|
            #[trigger] covers(s.take(k + 1), p) <==> (covers(s.take(k), p) || (s[k].0 <= p < s[k].1)),
{
    assert(s.take(k + 1) =~= s.take(k).push(s[k]));
    lemma_covers_push(s.take(k), s[k]);
}

/// Two range lists made of the same elements cover the same points and are
/// well-formed together.
pub(crate) proof fn lemma_same_multiset_same_cover(s1: Seq<ReadRange>, s2: Seq<ReadRange>)
    requires
        s1.to_multiset() == s2.to_multiset(),
    ensures
        forall|p: int| #[trigger] covers(view_of_ranges(s1), p) <==> covers(view_of_ranges(s2), p),
        ranges_wf(view_of_ranges(s1)) ==> ranges_wf(view_of_ranges(s2)),
{
    broadcast use vstd::seq_lib::group_to_multiset_ensures;

    assert forall|p: int| #[trigger] covers(view_of_ranges(s1), p) implies covers(view_of_ranges(s2), p) by {
        lemma_cover_element(s1, s2, p);
    }
    assert forall|p: int| covers(view_of_ranges(s2), p) implies #[trigger] covers(view_of_ranges(s1), p) by {
        lemma_cover_element(s2, s1, p);
    }
    if ranges_wf(view_of_ranges(s1)) {
        assert forall|i: int| 0 <= i < view_of_ranges(s2).len() implies range_wf(#[trigger] view_of_ranges(s2)[i]) by {
            broadcast use vstd::seq_lib::group_to_multiset_ensures;

            let r = s2[i];
            assert(s2.contains(r)) by {
                assert(s2[i] == r);
            }
            assert(s2.to_multiset().count(r) > 0);
            assert(s1.to_multiset().count(r) > 0);
            assert(s1.contains(r));
            let j = choose|j: int| 0 <= j < s1.len() && s1[j] == r;
            assert(view_of_ranges(s1)[j] == view_of_ranges(s2)[i]);
            assert(range_wf(view_of_ranges(s1)[j]));
        }
    }
}

proof fn lemma_cover_element(s1: Seq<ReadRange>, s2: Seq<ReadRange>, p: int)
    requires
        s1.to_multiset() == s2.to_multiset(),
        covers(view_of_ranges(s1), p),
    ensures
        covers(view_of_ranges(s2), p),
{
    broadcast use vstd::seq_lib::group_to_multiset_ensures;

    let i = choose|i: int|
        0 <= i < view_of_ranges(s1).len() && (#[trigger] view_of_ranges(s1)[i]).0 <= p < view_of_ranges(s1)[i].1;
    let r = s1[i];
    assert(s1.contains(r)) by {
        assert(s1[i] == r);
    }
    assert(s1.to_multiset().count(r) > 0);
    assert(s2.to_multiset().count(r) > 0);
    assert(s2.contains(r));
    let j = choose|j: int| 0 <= j < s2.len() && s2[j] == r;
    assert((view_of_ranges(s2)[j]).0 <= p < view_of_ranges(s2)[j].1);
}

/// Copies of the input in ascending order of `start_position`.
pub(crate) fn sorted_ranges(input: &Vec<ReadRange>) -> (out: Vec<ReadRange>)
    ensures
        out@.to_multiset() == input@.to_multiset(),
        sorted_by_start(view_of_ranges(out@)),
        out@.len() == input@.len(),
{
    broadcast use vstd::seq_lib::group_to_multiset_ensures;

    let mut rest: Vec<ReadRange> = Vec::new();
    let mut i: usize = 0;
    while i < input.len()
        invariant
            i <= input.len(),
            rest@ == input@.take(i as int),
        decreases input.len() - i,
    {
        rest.push(input[i]);
        proof {
            assert(input@.take(i + 1) =~= input@.take(i as int).push(input@[i as int]));
        }
        i = i + 1;
    }
    assert(rest@ =~= input@);

    let mut out: Vec<ReadRange> = Vec::new();
    while rest.len() > 0
        invariant
            out@.to_multiset().add(rest@.to_multiset()) == input@.to_multiset(),
            sorted_by_start(view_of_ranges(out@)),
            forall|a: int, b: int|
                0 <= a < out@.len() && 0 <= b < rest@.len()
                    ==> (#[trigger] out@[a]).start_position <= (#[trigger] rest@[b]).start_position,
            out@.len() + rest@.len() == input@.len(),
        decreases rest.len(),
    {
        let mut mi: usize = 0;
        let mut j: usize = 1;
        while j < rest.len()
            invariant
                mi < j <= rest.len(),
                rest@.len() > 0,
                forall|b: int|
                    0 <= b < j ==> (#[trigger] rest@[b]).start_position >= rest@[mi as int].start_position,
            decreases rest.len() - j,
        {
            if rest[j].start_position < rest[mi].start_position {
                mi = j;
            }
            j = j + 1;
        }
        let ghost old_out = out@;
        let ghost old_rest = rest@;
        let r = rest.remove(mi);
        out.push(r);
        proof {
            broadcast use vstd::seq_lib::group_to_multiset_ensures;

            assert(old_rest.contains(r)) by {
                assert(old_rest[mi as int] == r);
            }
            assert(old_rest.to_multiset().count(r) > 0);
            assert(out@.to_multiset() =~= old_out.to_multiset().insert(r));
            assert(rest@.to_multiset() =~= old_rest.to_multiset().remove(r));
            assert(out@.to_multiset().add(rest@.to_multiset()) =~= old_out.to_multiset().add(
                old_rest.to_multiset(),
            ));
            // every remaining element was a candidate the minimum beat
            assert forall|b: int| 0 <= b < rest@.len() implies r.start_position <= (
            #[trigger] rest@[b]).start_position by {
                if b < mi {
                    assert(rest@[b] == old_rest[b]);
                } else {
                    assert(rest@[b] == old_rest[b + 1]);
                }
            }
            assert forall|a: int, b: int|
                0 <= a < out@.len() && 0 <= b < rest@.len() implies (#[trigger] out@[a]).start_position <= (
            #[trigger] rest@[b]).start_position by {
                if a < old_out.len() {
                    assert(out@[a] == old_out[a]);
                    assert(old_rest[mi as int] == r);
                } else {
                    assert(out@[a] == r);
                }
            }
            assert forall|a: int, b: int|
                0 <= a <= b < out@.len() implies (#[trigger] view_of_ranges(out@)[a]).0 <= (
            #[trigger] view_of_ranges(out@)[b]).0 by {
                if b < old_out.len() {
                    assert(out@[a] == old_out[a] && out@[b] == old_out[b]);
                    assert(view_of_ranges(old_out)[a] == view_of_ranges(out@)[a]);
                    assert(view_of_ranges(old_out)[b] == view_of_ranges(out@)[b]);
                } else if a < old_out.len() {
                    assert(out@[b] == r);
                    assert(old_rest[mi as int] == r);
                    assert(out@[a] == old_out[a]);
                }
            }
        }
    }
    proof {
        broadcast use vstd::seq_lib::group_to_multiset_ensures;
        broadcast use vstd::multiset::group_multiset_axioms;

        assert(rest@.to_multiset() =~= Multiset::<ReadRange>::empty());
        assert(out@.to_multiset().add(rest@.to_multiset()) =~= out@.to_multiset());
        assert(out@.to_multiset().len() == input@.to_multiset().len());
    }
    out
}

/// The interval toolbox of the engine.
pub struct RangeCalculator;

impl RangeCalculator {
    /// Merges a set of read ranges into the minimal sorted cover of the same
    /// points, fusing overlapping and touching intervals.
    pub fn merge(ranges: &Vec<ReadRange>) -> (merged: Vec<(i64, i64)>)
        requires
            ranges_wf(view_of_ranges(ranges@)),
        ensures
            merge_post(view_of_ranges(ranges@), view_of_pairs(merged@)),
    {
        let sorted = sorted_ranges(ranges);
        proof {
            lemma_same_multiset_same_cover(ranges@, sorted@);
        }
        let ghost iv = view_of_ranges(ranges@);
        let ghost sv = view_of_ranges(sorted@);
        let mut out: Vec<(i64, i64)> = Vec::new();
        if sorted.len() == 0 {
            assert(forall|p: int| !covers(view_of_pairs(out@), p));
            assert(forall|p: int| !covers(sv, p));
            return out;
        }
        let mut cs = sorted[0].start_position;
        let mut ce = sorted[0].end_position;
        proof {
            assert(sv[0] == (cs as int, ce as int));
            assert(range_wf(sv[0]));
            assert forall|j: int| 1 <= j < sv.len() implies cs as int <= (#[trigger] sv[j]).0 by {
                assert(sv[0].0 <= sv[j].0);
            }
            lemma_covers_take_step(sv, 0);
            assert(sv.take(0int) =~= Seq::empty());
            assert(forall|p: int| !covers(sv.take(0int), p));
            assert(forall|p: int| !covers(view_of_pairs(out@), p));
            assert forall|p: int| #[trigger] covers(sv.take(1int), p) <==> (covers(
                view_of_pairs(out@),
                p,
            ) || (cs as int <= p < ce as int)) by {
                assert(covers(sv.take(0int + 1), p) <==> (covers(sv.take(0int), p) || (sv[0].0 <= p
                    < sv[0].1)));
            }
        }
        let mut k: usize = 1;
        while k < sorted.len()
            invariant
                1 <= k <= sorted.len(),
                sorted.len() > 0,
                sv == view_of_ranges(sorted@),
                sorted_by_start(sv),
                ranges_wf(sv),
                0 <= cs <= ce,
                merged_cover_wf(view_of_pairs(out@)),
                forall|i: int| 0 <= i < out@.len() ==> (#[trigger] view_of_pairs(out@)[i]).1 < cs,
                forall|j: int| k <= j < sv.len() ==> cs <= (#[trigger] sv[j]).0,
                forall|p: int|
                    #[trigger] covers(sv.take(k as int), p) <==> (covers(view_of_pairs(out@), p) || (cs
                        <= p < ce)),
            decreases sorted.len() - k,
        {
            let rs = sorted[k].start_position;
            let re = sorted[k].end_position;
            proof {
                assert(sv[k as int] == (rs as int, re as int));
                assert(range_wf(sv[k as int]));
                lemma_covers_take_step(sv, k as int);
            }
            if rs <= ce {
                if re > ce {
                    ce = re;
                }
            } else {
                let ghost old_out = out@;
                if cs < ce {
                    out.push((cs, ce));
                    proof {
                        assert(view_of_pairs(out@) =~= view_of_pairs(old_out).push(
                            (cs as int, ce as int),
                        ));
                        lemma_covers_push(view_of_pairs(old_out), (cs as int, ce as int));
                    }
                }
                cs = rs;
                ce = re;
            }
            k = k + 1;
        }
        let ghost old_out = out@;
        if cs < ce {
            out.push((cs, ce));
            proof {
                assert(view_of_pairs(out@) =~= view_of_pairs(old_out).push((cs as int, ce as int)));
                lemma_covers_push(view_of_pairs(old_out), (cs as int, ce as int));
            }
        }
        proof {
            assert(sv.take(sv.len() as int) =~= sv);
        }
        out
    }

    /// The number of distinct points covered by the given ranges: the exact
    /// size of their set union.
    pub fn calculate_read_characters(ranges: Vec<ReadRange>) -> (total: i64)
        requires
            ranges_wf(view_of_ranges(ranges@)),
        ensures
            covered_points(view_of_ranges(ranges@)).finite(),
            total as int == covered_points(view_of_ranges(ranges@)).len(),
            total >= 0,
    {
        let merged = Self::merge(&ranges);
        let ghost mv = view_of_pairs(merged@);
        let ghost iv = view_of_ranges(ranges@);
        proof {
            lemma_merged_cover_size(mv);
            assert forall|p: int| covered_points(mv).contains(p) <==> covered_points(iv).contains(
                p,
            ) by {
                assert(covers(mv, p) <==> covers(iv, p));
            }
            assert(covered_points(mv) =~= covered_points(iv));
        }
        let mut total: i64 = 0;
        let mut i: usize = 0;
        while i < merged.len()
            invariant
                i <= merged.len(),
                mv == view_of_pairs(merged@),
                merged_cover_wf(mv),
                total as int == span_sum(mv.take(i as int)),
                total >= 0,
                i > 0 ==> total <= mv[i as int - 1].1,
            decreases merged.len() - i,
        {
            proof {
                assert(mv.take(i + 1).drop_last() =~= mv.take(i as int));
                assert(mv.take(i + 1).last() == mv[i as int]);
                if i > 0 {
                    assert(mv[i as int - 1].1 < mv[i as int].0);
                }
            }
            total = total + (merged[i].1 - merged[i].0);
            i = i + 1;
        }
        proof {
            assert(mv.take(merged@.len() as int) =~= mv);
        }
        total
    }

    /// Whether `position` lies inside any of the given ranges.
    pub fn is_position_read(position: i64, ranges: &Vec<ReadRange>) -> (read: bool)
        ensures
            read == covers(view_of_ranges(ranges@), position as int),
    {
        let mut i: usize = 0;
        while i < ranges.len()
            invariant
                i <= ranges.len(),
                forall|j: int|
                    0 <= j < i ==> !((#[trigger] view_of_ranges(ranges@)[j]).0 <= position as int
                        && (position as int) < view_of_ranges(ranges@)[j].1),
            decreases ranges.len() - i,
        {
            if position >= ranges[i].start_position && position < ranges[i].end_position {
                proof {
                    assert((view_of_ranges(ranges@)[i as int]).0 <= position as int
                        && (position as int) < view_of_ranges(ranges@)[i as int].1);
                }
                return true;
            }
            i = i + 1;
        }
        false
    }

    /// The complement of the read ranges against `[0, total_length)`: the gaps
    /// before, between and after the merged cover. A zero-length document
    /// has no gaps: every operation on an empty document returns an empty
    /// result.
    pub fn get_unread_ranges(total_length: i64, read_ranges: Vec<ReadRange>) -> (unread: Vec<
        (i64, i64),
    >)
        requires
            0 <= total_length,
            ranges_wf(view_of_ranges(read_ranges@)),
            forall|i: int|
                0 <= i < read_ranges@.len() ==> (#[trigger] view_of_ranges(read_ranges@)[i]).1
                    <= total_length as int,
        ensures
            complement_post(
                total_length as int,
                view_of_ranges(read_ranges@),
                view_of_pairs(unread@),
            ),
            total_length == 0 ==> unread@ == Seq::<(i64, i64)>::empty(),
            total_length > 0 && read_ranges@.len() == 0 ==> unread@ =~= seq![
                (0i64, total_length),
            ],
    {
        let ghost iv = view_of_ranges(read_ranges@);
        if total_length == 0 {
            let unread: Vec<(i64, i64)> = Vec::new();
            proof {
                assert(forall|p: int| !covers(view_of_pairs(unread@), p));
            }
            return unread;
        }
        if read_ranges.len() == 0 {
            let mut unread: Vec<(i64, i64)> = Vec::new();
            unread.push((0, total_length));
            proof {
                lemma_covers_push(view_of_pairs(Seq::empty()), (0int, total_length as int));
                assert(view_of_pairs(unread@) =~= view_of_pairs(Seq::empty()).push(
                    (0int, total_length as int),
                ));
                assert(forall|p: int| !covers(iv, p));
            }
            return unread;
        }
        let merged = RangeCalculator::merge(&read_ranges);
        let ghost mv = view_of_pairs(merged@);
        proof {
            // merged interval ends stay within the document: every point of a
            // non-empty merged interval is a covered point, hence below total
            assert forall|i: int| 0 <= i < mv.len() implies (#[trigger] mv[i]).1
                <= total_length as int by {
                let e = mv[i].1;
                assert(mv[i].0 <= e - 1 < mv[i].1);
                assert(covers(mv, e - 1));
                let j = choose|j: int| 0 <= j < iv.len() && (#[trigger] iv[j]).0 <= e - 1 < iv[j].1;
                assert(iv[j].1 <= total_length as int);
            }
        }
        let mut unread: Vec<(i64, i64)> = Vec::new();
        let mut cur: i64 = 0;
        let mut k: usize = 0;
        while k < merged.len()
            invariant
                k <= merged.len(),
                mv == view_of_pairs(merged@),
                merged_cover_wf(mv),
                forall|i: int| 0 <= i < mv.len() ==> (#[trigger] mv[i]).1 <= total_length as int,
                0 <= cur <= total_length,
                k > 0 ==> cur as int == mv[k - 1].1,
                k == 0 ==> cur == 0,
                forall|i: int|
                    0 <= i < unread@.len() ==> 0 <= (#[trigger] view_of_pairs(unread@)[i]).0
                        < view_of_pairs(unread@)[i].1 && view_of_pairs(unread@)[i].1 < cur as int,
                forall|i: int, j: int|
                    0 <= i < j < unread@.len() ==> (#[trigger] view_of_pairs(unread@)[i]).1 < (
                    #[trigger] view_of_pairs(unread@)[j]).0,
                forall|p: int|
                    #[trigger] covers(view_of_pairs(unread@), p) <==> (0 <= p < cur as int && !covers(
                        mv.take(k as int),
                        p,
                    )),
                forall|j: int| k <= j < mv.len() ==> cur as int <= (#[trigger] mv[j]).0,
            decreases merged.len() - k,
        {
            let ms = merged[k].0;
            let me = merged[k].1;
            proof {
                assert(mv[k as int] == (ms as int, me as int));
                lemma_covers_take_step(mv, k as int);
                if k > 0 {
                    assert(mv[k - 1].1 < mv[k as int].0);
                }
            }
            let ghost old_unread = unread@;
            if ms > cur {
                unread.push((cur, ms));
                proof {
                    assert(view_of_pairs(unread@) =~= view_of_pairs(old_unread).push(
                        (cur as int, ms as int),
                    ));
                    lemma_covers_push(view_of_pairs(old_unread), (cur as int, ms as int));
                }
            }
            cur = me;
            k = k + 1;
        }
        let ghost old_unread = unread@;
        if cur < total_length {
            unread.push((cur, total_length));
            proof {
                assert(view_of_pairs(unread@) =~= view_of_pairs(old_unread).push(
                    (cur as int, total_length as int),
                ));
                lemma_covers_push(view_of_pairs(old_unread), (cur as int, total_length as int));
            }
        }
        proof {
            assert(mv.take(merged@.len() as int) =~= mv);
            assert forall|p: int| #[trigger] covers(view_of_pairs(unread@), p) implies (0 <= p
                < total_length as int && !covers(iv, p)) by {
                assert(covers(mv, p) <==> covers(iv, p));
            }
            assert forall|p: int| (0 <= p < total_length as int && !covers(iv, p)) implies #[trigger] covers(
                view_of_pairs(unread@),
                p,
            ) by {
                assert(covers(mv, p) <==> covers(iv, p));
            }
        }
        unread
    }
}

/// The total extent of a minimal cover equals the number of points it covers:
/// the measure a sorted, pairwise-disjoint merge output reports is the true
/// size of the set union.
pub proof fn lemma_merged_cover_size(s: Seq<(int, int)>)
    requires
        merged_cover_wf(s),
    ensures
        covered_points(s).finite(),
        covered_points(s).len() == span_sum(s),
        span_sum(s) >= 0,
    decreases s.len(),
{
    if s.len() == 0 {
        lemma_int_range(0, 0);
        assert(forall|p: int| !covers(s, p));
        assert(covered_points(s) =~= set_int_range(0, 0));
    } else {
        let s0 = s.drop_last();
        let last = s.last();
        assert(merged_cover_wf(s0)) by {
            assert(forall|i: int| 0 <= i < s0.len() ==> s0[i] == s[i]);
        }
        lemma_merged_cover_size(s0);
        lemma_int_range(last.0, last.1);
        let a = covered_points(s0);
        let b = set_int_range(last.0, last.1);
        assert forall|p: int| #[trigger] covers(s, p) implies (covers(s0, p) || (last.0 <= p
            < last.1)) by {
            let i = choose|i: int| 0 <= i < s.len() && (#[trigger] s[i]).0 <= p < s[i].1;
            if i < s.len() - 1 {
                assert(s0[i] == s[i]);
                assert(covers(s0, p));
            }
        }
        assert forall|p: int| (covers(s0, p) || (last.0 <= p < last.1)) implies #[trigger] covers(
            s,
            p,
        ) by {
            if covers(s0, p) {
                let i = choose|i: int| 0 <= i < s0.len() && (#[trigger] s0[i]).0 <= p < s0[i].1;
                assert(s[i] == s0[i]);
            } else {
                assert(s[s.len() - 1] == last);
            }
        }
        assert(covered_points(s) =~= a + b);
        assert(a.disjoint(b)) by {
            assert forall|p: int| a.contains(p) implies !b.contains(p) by {
                let i = choose|i: int| 0 <= i < s0.len() && (#[trigger] s0[i]).0 <= p < s0[i].1;
                assert(s[i].1 < s[s.len() - 1].0);
            }
        }
        lemma_set_disjoint_lens(a, b);
    }
}

/// Merge and complement are inverses: the merged cover and its complement
/// against `[0, total)` are disjoint and together reconstruct `[0, total)`
/// exactly.
pub proof fn lemma_merge_complement_inverse(
    total: int,
    ranges: Seq<(int, int)>,
    merged: Seq<(int, int)>,
    complement: Seq<(int, int)>,
)
    requires
        0 <= total,
        ranges_wf(ranges),
        forall|i: int| 0 <= i < ranges.len() ==> (#[trigger] ranges[i]).1 <= total,
        merge_post(ranges, merged),
        complement_post(total, ranges, complement),
    ensures
        covered_points(merged).disjoint(covered_points(complement)),
        covered_points(merged) + covered_points(complement) =~= set_int_range(0, total),
{
    assert forall|p: int| covers(ranges, p) implies 0 <= p < total by {
        let i = choose|i: int| 0 <= i < ranges.len() && (#[trigger] ranges[i]).0 <= p < ranges[i].1;
    }
    assert(covered_points(merged) + covered_points(complement) =~= set_int_range(0, total));
}

} // verus!
