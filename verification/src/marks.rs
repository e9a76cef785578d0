//! The mark reconciler: classifies every stored mark against an edit window
//! `[edit_start, edit_end)` of the old document and either leaves it
//! unchanged, shifts its positions by the edit's length delta, or flags it
//! for manual review. A mark overlapping the edit window is never shifted.

use vstd::prelude::*;
use crate::errors::EngineError;
use crate::text_units::MAX_CONTENT_LENGTH;

verus! {

/// A stored mark: an anchor `[start,end)` into a document, or a mark whose
/// positions are unknown and which always needs review after an edit.
#[derive(Clone, Copy, Debug)]
pub struct ClozeNoteMark {
    pub id: i64,
    pub start_position: Option<i64>,
    pub end_position: Option<i64>,
}

/// How one mark fares under an edit.
#[derive(Clone, Copy, Debug, PartialEq, Eq, Structural)]
pub enum MarkOutcome {
    /// The mark ends at or before the edit window: positions unchanged.
    Unaffected,
    /// The mark starts at or after the edit window and both shifted
    /// positions stay inside the new document.
    Shift { new_start: i64, new_end: i64 },
    /// The mark overlaps the edit window, a shift would leave the new
    /// document, or its positions are unknown: needs review.
    Flag,
}

/// The classification of a mark `[start,end)` against the edit window
/// `[edit_start,edit_end)`, evaluated in this exact priority order.
pub open spec fn mark_outcome(
    start: int,
    end: int,
    edit_start: int,
    edit_end: int,
    delta: int,
    new_length: int,
) -> MarkOutcome {
    if end <= edit_start {
        MarkOutcome::Unaffected
    } else if start >= edit_end {
        if start + delta < 0 || end + delta < 0 || end + delta > new_length {
            MarkOutcome::Flag
        } else {
            MarkOutcome::Shift { new_start: (start + delta) as i64, new_end: (end + delta) as i64 }
        }
    } else {
        MarkOutcome::Flag
    }
}

/// The classification of a whole mark record; unknown positions are always
/// flagged.
pub open spec fn mark_outcome_of(
    m: ClozeNoteMark,
    edit_start: int,
    edit_end: int,
    delta: int,
    new_length: int,
) -> MarkOutcome {
    match (m.start_position, m.end_position) {
        (Some(s0), Some(e0)) => mark_outcome(
            s0 as int,
            e0 as int,
            edit_start,
            edit_end,
            delta,
            new_length,
        ),
        _ => MarkOutcome::Flag,
    }
}

/// Classifies one positioned mark.
pub fn classify_mark(
    start: i64,
    end: i64,
    edit_start: i64,
    edit_end: i64,
    length_delta: i64,
    new_length: i64,
) -> (outcome: MarkOutcome)
    requires
        i64::MIN <= start + length_delta <= i64::MAX,
        i64::MIN <= end + length_delta <= i64::MAX,
    ensures
        outcome == mark_outcome(
            start as int,
            end as int,
            edit_start as int,
            edit_end as int,
            length_delta as int,
            new_length as int,
        ),
{
    if end <= edit_start {
        MarkOutcome::Unaffected
    } else if start >= edit_end {
        let new_start = start + length_delta;
        let new_end = end + length_delta;
        if new_start < 0 || new_end < 0 || new_end > new_length {
            MarkOutcome::Flag
        } else {
            MarkOutcome::Shift { new_start, new_end }
        }
    } else {
        MarkOutcome::Flag
    }
}

/// A mark the reconciler moved, with its new positions.
#[derive(Clone, Copy, Debug)]
pub struct MarkShift {
    pub id: i64,
    pub new_start: i64,
    pub new_end: i64,
}

/// Everything the persistence layer must apply after an edit.
pub struct MarkReconciliation {
    pub shifted: Vec<MarkShift>,
    pub flagged_marks: Vec<i64>,
    pub unchanged_marks: Vec<i64>,
}

/// The identifiers of each bucket of a reconciliation, in input order.
#[derive(Debug)]
pub struct UpdateResult {
    pub updated_marks: Vec<i64>,
    pub flagged_marks: Vec<i64>,
    pub unchanged_marks: Vec<i64>,
}

/// The shifts the reconciler produces, in input order.
pub open spec fn shifted_of(
    marks: Seq<ClozeNoteMark>,
    edit_start: int,
    edit_end: int,
    delta: int,
    new_length: int,
) -> Seq<MarkShift>
    decreases marks.len(),
{
    if marks.len() == 0 {
        Seq::empty()
    } else {
        let rest = shifted_of(marks.drop_last(), edit_start, edit_end, delta, new_length);
        match mark_outcome_of(marks.last(), edit_start, edit_end, delta, new_length) {
            MarkOutcome::Shift { new_start, new_end } => rest.push(
                MarkShift { id: marks.last().id, new_start, new_end },
            ),
            _ => rest,
        }
    }
}

/// The identifiers the reconciler flags for review, in input order.
pub open spec fn flagged_of(
    marks: Seq<ClozeNoteMark>,
    edit_start: int,
    edit_end: int,
    delta: int,
    new_length: int,
) -> Seq<i64>
    decreases marks.len(),
{
    if marks.len() == 0 {
        Seq::empty()
    } else {
        let rest = flagged_of(marks.drop_last(), edit_start, edit_end, delta, new_length);
        match mark_outcome_of(marks.last(), edit_start, edit_end, delta, new_length) {
            MarkOutcome::Flag => rest.push(marks.last().id),
            _ => rest,
        }
    }
}

/// The identifiers the reconciler leaves untouched, in input order.
pub open spec fn unchanged_of(
    marks: Seq<ClozeNoteMark>,
    edit_start: int,
    edit_end: int,
    delta: int,
    new_length: int,
) -> Seq<i64>
    decreases marks.len(),
{
    if marks.len() == 0 {
        Seq::empty()
    } else {
        let rest = unchanged_of(marks.drop_last(), edit_start, edit_end, delta, new_length);
        match mark_outcome_of(marks.last(), edit_start, edit_end, delta, new_length) {
            MarkOutcome::Unaffected => rest.push(marks.last().id),
            _ => rest,
        }
    }
}

/// A mark position the reconciler accepts.
pub open spec fn mark_pos_bounded(p: Option<i64>) -> bool {
    match p {
        Some(v) => 0 <= v <= MAX_CONTENT_LENGTH,
        None => true,
    }
}

/// Reconciles every active mark with an edit of the document: the edit
/// replaced `[edit_start, edit_end)` of the old content, and the document
/// length went from `original_content_length` to `new_content_length`.
/// Malformed edit windows are rejected, never clamped.
pub fn update_text_with_smart_marks(
    edit_start: i64,
    edit_end: i64,
    new_content_length: i64,
    original_content_length: i64,
    marks: &Vec<ClozeNoteMark>,
) -> (result: Result<MarkReconciliation, EngineError>)
    requires
        0 <= new_content_length <= MAX_CONTENT_LENGTH,
        0 <= original_content_length <= MAX_CONTENT_LENGTH,
        forall|i: int|
            0 <= i < marks@.len() ==> mark_pos_bounded((#[trigger] marks@[i]).start_position)
                && mark_pos_bounded(marks@[i].end_position),
    ensures
        result is Err <==> (edit_start < 0 || edit_end < edit_start || edit_end
            > original_content_length),
        edit_start < 0 ==> result == Result::<MarkReconciliation, EngineError>::Err(
            EngineError::InvalidOffset,
        ),
        edit_start >= 0 && edit_end < edit_start ==> result == Result::<
            MarkReconciliation,
            EngineError,
        >::Err(EngineError::InvalidEditWindow),
        edit_start >= 0 && edit_end >= edit_start && edit_end > original_content_length ==> result
            == Result::<MarkReconciliation, EngineError>::Err(EngineError::InvalidOffset),
        result matches Ok(r) ==> {
            let delta = new_content_length - original_content_length;
            &&& r.shifted@ == shifted_of(
                marks@,
                edit_start as int,
                edit_end as int,
                delta,
                new_content_length as int,
            )
            &&& r.flagged_marks@ == flagged_of(
                marks@,
                edit_start as int,
                edit_end as int,
                delta,
                new_content_length as int,
            )
            &&& r.unchanged_marks@ == unchanged_of(
                marks@,
                edit_start as int,
                edit_end as int,
                delta,
                new_content_length as int,
            )
        },
{
    if edit_start < 0 {
        return Err(EngineError::InvalidOffset);
    }
    if edit_end < edit_start {
        return Err(EngineError::InvalidEditWindow);
    }
    if edit_end > original_content_length {
        return Err(EngineError::InvalidOffset);
    }
    let length_delta = new_content_length - original_content_length;
    let ghost es = edit_start as int;
    let ghost ee = edit_end as int;
    let ghost delta = length_delta as int;
    let ghost nl = new_content_length as int;

    let mut shifted: Vec<MarkShift> = Vec::new();
    let mut flagged_marks: Vec<i64> = Vec::new();
    let mut unchanged_marks: Vec<i64> = Vec::new();
    let mut i: usize = 0;
    while i < marks.len()
        invariant
            i <= marks.len(),
            es == edit_start as int,
            ee == edit_end as int,
            delta == length_delta as int,
            nl == new_content_length as int,
            -MAX_CONTENT_LENGTH <= delta <= MAX_CONTENT_LENGTH,
            forall|j: int|
                0 <= j < marks@.len() ==> mark_pos_bounded((#[trigger] marks@[j]).start_position)
                    && mark_pos_bounded(marks@[j].end_position),
            shifted@ == shifted_of(marks@.take(i as int), es, ee, delta, nl),
            flagged_marks@ == flagged_of(marks@.take(i as int), es, ee, delta, nl),
            unchanged_marks@ == unchanged_of(marks@.take(i as int), es, ee, delta, nl),
        decreases marks.len() - i,
    {
        let m = marks[i];
        proof {
            let t = marks@.take(i + 1);
            assert(t.drop_last() =~= marks@.take(i as int));
            assert(t.last() == marks@[i as int]);
        }
        proof {
            assert(mark_pos_bounded(marks@[i as int].start_position) && mark_pos_bounded(
                marks@[i as int].end_position,
            ));
        }
        match (m.start_position, m.end_position) {
            (Some(start), Some(end)) => {
                let outcome = classify_mark(
                    start,
                    end,
                    edit_start,
                    edit_end,
                    length_delta,
                    new_content_length,
                );
                match outcome {
                    MarkOutcome::Unaffected => {
                        unchanged_marks.push(m.id);
                    },
                    MarkOutcome::Shift { new_start, new_end } => {
                        shifted.push(MarkShift { id: m.id, new_start, new_end });
                    },
                    MarkOutcome::Flag => {
                        flagged_marks.push(m.id);
                    },
                }
            },
            _ => {
                flagged_marks.push(m.id);
            },
        }
        i = i + 1;
    }
    proof {
        assert(marks@.take(marks@.len() as int) =~= marks@);
    }
    Ok(MarkReconciliation { shifted, flagged_marks, unchanged_marks })
}

impl MarkReconciliation {
    /// The reconciliation reduced to the three identifier buckets.
    pub fn to_update_result(&self) -> (r: UpdateResult)
        ensures
            r.updated_marks@ == self.shifted@.map_values(|s: MarkShift| s.id),
            r.flagged_marks@ == self.flagged_marks@,
            r.unchanged_marks@ == self.unchanged_marks@,
    {
        let mut updated_marks: Vec<i64> = Vec::new();
        let mut i: usize = 0;
        while i < self.shifted.len()
            invariant
                i <= self.shifted@.len(),
                updated_marks@ == self.shifted@.take(i as int).map_values(|s: MarkShift| s.id),
            decreases self.shifted@.len() - i,
        {
            updated_marks.push(self.shifted[i].id);
            proof {
                assert(self.shifted@.take(i + 1).map_values(|s: MarkShift| s.id) =~= self.shifted@
                    .take(i as int).map_values(|s: MarkShift| s.id).push(self.shifted@[i as int].id));
            }
            i = i + 1;
        }
        proof {
            assert(self.shifted@.take(self.shifted@.len() as int) =~= self.shifted@);
        }
        let mut flagged_marks: Vec<i64> = Vec::new();
        let mut unchanged_marks: Vec<i64> = Vec::new();
        let mut j: usize = 0;
        while j < self.flagged_marks.len()
            invariant
                j <= self.flagged_marks@.len(),
                flagged_marks@ == self.flagged_marks@.take(j as int),
            decreases self.flagged_marks@.len() - j,
        {
            flagged_marks.push(self.flagged_marks[j]);
            proof {
                assert(self.flagged_marks@.take(j + 1) =~= self.flagged_marks@.take(
                    j as int,
                ).push(self.flagged_marks@[j as int]));
            }
            j = j + 1;
        }
        proof {
            assert(self.flagged_marks@.take(self.flagged_marks@.len() as int)
                =~= self.flagged_marks@);
        }
        let mut k: usize = 0;
        while k < self.unchanged_marks.len()
            invariant
                k <= self.unchanged_marks@.len(),
                unchanged_marks@ == self.unchanged_marks@.take(k as int),
            decreases self.unchanged_marks@.len() - k,
        {
            unchanged_marks.push(self.unchanged_marks[k]);
            proof {
                assert(self.unchanged_marks@.take(k + 1) =~= self.unchanged_marks@.take(
                    k as int,
                ).push(self.unchanged_marks@[k as int]));
            }
            k = k + 1;
        }
        proof {
            assert(self.unchanged_marks@.take(self.unchanged_marks@.len() as int)
                =~= self.unchanged_marks@);
        }
        UpdateResult { updated_marks, flagged_marks, unchanged_marks }
    }
}

/// A mark lying entirely at or after the edit window is shifted by exactly
/// the edit's length delta whenever the shifted span stays inside the new
/// document; an insertion of ten units moves it by exactly ten.
pub proof fn lemma_shift_invariant(
    start: int,
    end: int,
    edit_start: int,
    edit_end: int,
    delta: int,
    new_length: int,
)
    requires
        edit_start < end,
        start >= edit_end,
        0 <= start + delta,
        0 <= end + delta <= new_length,
    ensures
        mark_outcome(start, end, edit_start, edit_end, delta, new_length)
            == (MarkOutcome::Shift { new_start: (start + delta) as i64, new_end: (end + delta) as i64 }),
{
}

/// A mark overlapping the edit window is always flagged for review, whatever
/// the length delta or the new document length: it is never shifted and
/// never left unchanged.
pub proof fn lemma_overlap_invariant(
    start: int,
    end: int,
    edit_start: int,
    edit_end: int,
    delta: int,
    new_length: int,
)
    requires
        edit_start < end,
        start < edit_end,
    ensures
        mark_outcome(start, end, edit_start, edit_end, delta, new_length) == MarkOutcome::Flag,
{
}

} // verus!
