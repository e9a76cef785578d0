//! The progress calculator: how much of a document's countable text the
//! stored read ranges cover. The engine returns the exact ratio; turning it
//! into a floating-point percentage is the caller's presentation concern.

use vstd::prelude::*;
use crate::ranges::RangeCalculator;
use crate::ranges::ReadRange;
use crate::ranges::covered_points;
use crate::ranges::ranges_wf;
use crate::ranges::span_sum;
use crate::ranges::view_of_ranges;
use crate::offsets::excluded_count;
use crate::offsets::header_lines;
use crate::offsets::get_countable_length;
use crate::text_units::MAX_CONTENT_LENGTH;
use crate::text_units::utf16_len;
use crate::text_units::utf16_seq;

verus! {

/// A document's reading progress, as the exact ratio behind the percentage.
#[derive(Clone, Copy, Debug, PartialEq, Eq, Structural)]
pub enum TextProgress {
    /// Nothing is countable: the progress percentage is zero, whatever was
    /// read.
    Zero,
    /// The percentage is `read_characters * 100 / countable_characters`,
    /// with a positive denominator. Read ranges are not clipped against
    /// excluded or header spans before the division.
    Ratio { read_characters: i64, countable_characters: i64 },
}

/// The countable length of the document, as a spec-level quantity.
pub open spec fn countable_length_of(content: Seq<char>, content_length: int) -> int {
    content_length - excluded_count(utf16_seq(content)) - span_sum(
        header_lines(utf16_seq(content)),
    )
}

/// The reading progress of a document: zero when nothing is countable, else
/// the exact pair of numerator (distinct read code units) and denominator
/// (countable code units).
pub fn calculate_text_progress(content: &str, content_length: i64, ranges: Vec<ReadRange>) -> (progress: TextProgress)
    requires
        0 <= content_length <= MAX_CONTENT_LENGTH,
        utf16_len(content@) <= MAX_CONTENT_LENGTH,
        ranges_wf(view_of_ranges(ranges@)),
    ensures
        (progress is Zero) <==> countable_length_of(content@, content_length as int) <= 0,
        progress matches TextProgress::Ratio { read_characters, countable_characters } ==> {
            &&& countable_characters == countable_length_of(content@, content_length as int)
            &&& read_characters as int == covered_points(view_of_ranges(ranges@)).len()
        },
{
    let countable_chars = get_countable_length(content, content_length);
    if countable_chars <= 0 {
        return TextProgress::Zero;
    }
    let read_chars = RangeCalculator::calculate_read_characters(ranges);
    TextProgress::Ratio { read_characters: read_chars, countable_characters: countable_chars }
}

} // verus!
