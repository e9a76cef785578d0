use trivium_core::errors::EngineError;
use trivium_core::excerpt::get_smart_excerpt;
use trivium_core::export::sanitize_filename;
use trivium_core::statistics::calculate_paragraph_count;
use trivium_core::statistics::calculate_word_count;
use trivium_core::excerpt::ExcerptKind;
use trivium_core::marks::classify_mark;
use trivium_core::marks::update_text_with_smart_marks;
use trivium_core::marks::ClozeNoteMark;
use trivium_core::marks::MarkOutcome;
use trivium_core::paragraphs::get_next_unread_paragraph;
use trivium_core::paragraphs::Paragraph;
use trivium_core::progress::calculate_text_progress;
use trivium_core::progress::TextProgress;
use trivium_core::ranges::RangeCalculator;
use trivium_core::ranges::ReadRange;
use trivium_core::study::to_decimal_string;
use trivium_core::study::StudyFilter;
use trivium_core::unread::calculate_unread_portions;
use trivium_core::unread::mark_range_as_read;

fn rr(start: i64, end: i64) -> ReadRange {
    ReadRange { start_position: start, end_position: end }
}

#[test]
fn test_merge_overlapping_and_touching() {
    let ranges = vec![rr(10, 20), rr(0, 5), rr(5, 8), rr(15, 30)];
    let merged = RangeCalculator::merge(&ranges);
    assert_eq!(merged, vec![(0, 8), (10, 30)]);
}

#[test]
fn test_calculate_read_characters_union() {
    // overlapping ranges count once: [0,10) u [5,15) u [20,25) = 20 units
    let ranges = vec![rr(0, 10), rr(5, 15), rr(20, 25)];
    assert_eq!(RangeCalculator::calculate_read_characters(ranges), 20);
    assert_eq!(RangeCalculator::calculate_read_characters(vec![]), 0);
}

#[test]
fn test_is_position_read() {
    let ranges = vec![rr(5, 10)];
    assert!(RangeCalculator::is_position_read(5, &ranges));
    assert!(RangeCalculator::is_position_read(9, &ranges));
    assert!(!RangeCalculator::is_position_read(10, &ranges));
    assert!(!RangeCalculator::is_position_read(4, &ranges));
}

#[test]
fn test_get_unread_ranges_gaps() {
    let unread = RangeCalculator::get_unread_ranges(100, vec![rr(10, 20), rr(40, 60)]);
    assert_eq!(unread, vec![(0, 10), (20, 40), (60, 100)]);
    assert_eq!(RangeCalculator::get_unread_ranges(50, vec![]), vec![(0, 50)]);
    assert_eq!(RangeCalculator::get_unread_ranges(10, vec![rr(0, 10)]), vec![]);
}

#[test]
fn test_merge_complement_rebuild() {
    // the merged cover and its complement tile [0,total) without overlap
    let ranges = vec![rr(3, 7), rr(7, 9), rr(15, 20)];
    let merged = RangeCalculator::merge(&ranges);
    let unread = RangeCalculator::get_unread_ranges(25, ranges);
    assert_eq!(merged, vec![(3, 9), (15, 20)]);
    assert_eq!(unread, vec![(0, 3), (9, 15), (20, 25)]);
    let mut tiles = [merged, unread].concat();
    tiles.sort();
    let mut pos = 0;
    for (s, e) in tiles {
        assert_eq!(s, pos);
        pos = e;
    }
    assert_eq!(pos, 25);
}

#[test]
fn test_unread_insertion_example() {
    // request (400,700) against existing (0,500) inserts exactly (500,700)
    let existing = vec![rr(0, 500)];
    let portions = calculate_unread_portions(400, 700, &existing);
    assert_eq!(portions, vec![(500, 700)]);
}

#[test]
fn test_unread_insertion_idempotent() {
    let mut existing = vec![rr(0, 500)];
    let first = calculate_unread_portions(400, 700, &existing);
    for (s, e) in &first {
        existing.push(rr(*s, *e));
    }
    let second = calculate_unread_portions(400, 700, &existing);
    assert_eq!(second, vec![]);
}

#[test]
fn test_mark_range_proportional_counts() {
    // [100,200) against existing [140,160): two portions of 40 units each,
    // each keeping 40/100 of the counters, floored at 1
    let existing = vec![rr(140, 160)];
    let plan = mark_range_as_read(100, 200, 1000, Some(50), Some(1), &existing).unwrap();
    assert_eq!(plan.len(), 2);
    assert_eq!(
        (plan[0].start_position, plan[0].end_position),
        (100, 140)
    );
    assert_eq!(
        (plan[1].start_position, plan[1].end_position),
        (160, 200)
    );
    // 50 * 40 / 100 = 20; 1 * 40 / 100 = 0, floored at 1
    assert_eq!(plan[0].character_count, Some(20));
    assert_eq!(plan[0].word_count, Some(1));
    assert_eq!(plan[1].character_count, Some(20));
    assert_eq!(plan[1].word_count, Some(1));
}

#[test]
fn test_mark_range_conserves_counter_without_overlap() {
    let plan = mark_range_as_read(0, 80, 100, Some(7), None, &vec![]).unwrap();
    let total: i64 = plan.iter().map(|p| p.character_count.unwrap()).sum();
    assert_eq!(total, 7);
    assert_eq!(plan.len(), 1);
    assert_eq!(plan[0].word_count, None);
}

#[test]
fn test_mark_range_rejects_invalid_offsets() {
    assert!(matches!(
        mark_range_as_read(-1, 10, 100, None, None, &vec![]),
        Err(EngineError::InvalidOffset)
    ));
    assert!(matches!(
        mark_range_as_read(10, 5, 100, None, None, &vec![]),
        Err(EngineError::InvalidOffset)
    ));
    assert!(matches!(
        mark_range_as_read(0, 101, 100, None, None, &vec![]),
        Err(EngineError::InvalidOffset)
    ));
}

fn mark(id: i64, start: i64, end: i64) -> ClozeNoteMark {
    ClozeNoteMark { id, start_position: Some(start), end_position: Some(end) }
}

#[test]
fn test_shift_invariant_plus_ten() {
    // a mark fully after the edit shifts by exactly the length delta
    let outcome = classify_mark(30, 40, 10, 20, 10, 100);
    assert_eq!(outcome, MarkOutcome::Shift { new_start: 40, new_end: 50 });
}

#[test]
fn test_overlap_invariant_always_flagged() {
    // a mark [5,15) under edit window [10,20) is always flagged
    for delta in [-10, -1, 0, 1, 10, 1000] {
        for new_length in [0, 10, 20, 100, 10_000] {
            let outcome = classify_mark(5, 15, 10, 20, delta, new_length);
            assert_eq!(outcome, MarkOutcome::Flag);
        }
    }
}

#[test]
fn test_shift_out_of_bounds_is_flagged() {
    // shifted past the new end of the document: needs review
    assert_eq!(classify_mark(30, 40, 0, 0, -35, 100), MarkOutcome::Flag);
    assert_eq!(classify_mark(30, 40, 0, 0, 70, 100), MarkOutcome::Flag);
    assert_eq!(classify_mark(70, 80, 50, 60, 5, 30), MarkOutcome::Flag);
}

#[test]
fn test_mark_before_edit_unaffected() {
    assert_eq!(classify_mark(0, 10, 10, 20, 5, 100), MarkOutcome::Unaffected);
}

#[test]
fn test_update_text_with_smart_marks_insertion() {
    // edit inserts 20 units at offset 50; mark (100,150) becomes (120,170)
    let marks = vec![mark(1, 100, 150)];
    let result = update_text_with_smart_marks(50, 50, 220, 200, &marks).unwrap();
    assert_eq!(result.shifted.len(), 1);
    assert_eq!(result.shifted[0].id, 1);
    assert_eq!(result.shifted[0].new_start, 120);
    assert_eq!(result.shifted[0].new_end, 170);
    assert!(result.flagged_marks.is_empty());
    assert!(result.unchanged_marks.is_empty());
}

#[test]
fn test_update_text_with_smart_marks_buckets() {
    let marks = vec![
        mark(1, 0, 10),   // before the edit: unchanged
        mark(2, 15, 25),  // overlaps the edit: flagged
        mark(3, 40, 50),  // after the edit: shifted
        ClozeNoteMark { id: 4, start_position: None, end_position: None }, // unknown: flagged
    ];
    let result = update_text_with_smart_marks(20, 30, 95, 100, &marks).unwrap();
    let update = result.to_update_result();
    assert_eq!(update.unchanged_marks, vec![1]);
    assert_eq!(update.flagged_marks, vec![2, 4]);
    assert_eq!(update.updated_marks, vec![3]);
    assert_eq!(result.shifted[0].new_start, 35);
    assert_eq!(result.shifted[0].new_end, 45);
}

#[test]
fn test_update_text_rejects_bad_edit_windows() {
    assert!(matches!(
        update_text_with_smart_marks(-1, 5, 10, 10, &vec![]),
        Err(EngineError::InvalidOffset)
    ));
    assert!(matches!(
        update_text_with_smart_marks(8, 5, 10, 10, &vec![]),
        Err(EngineError::InvalidEditWindow)
    ));
    assert!(matches!(
        update_text_with_smart_marks(0, 15, 10, 10, &vec![]),
        Err(EngineError::InvalidOffset)
    ));
    assert_eq!(EngineError::InvalidOffset.describe(), "invalid offset");
    assert_eq!(EngineError::InvalidEditWindow.describe(), "invalid edit window");
}

#[test]
fn test_progress_zero_when_nothing_countable() {
    // countable length zero: progress is 0.0 whatever was read
    let progress = calculate_text_progress("", 0, vec![rr(0, 100)]);
    assert_eq!(progress, TextProgress::Zero);
    // a document that is all header is not countable either
    let all_header = "== T ==";
    let progress = calculate_text_progress(all_header, 7, vec![rr(0, 4)]);
    assert_eq!(progress, TextProgress::Zero);
    let as_percentage = match progress {
        TextProgress::Zero => 0.0,
        TextProgress::Ratio { read_characters, countable_characters } => {
            read_characters as f64 / countable_characters as f64 * 100.0
        }
    };
    assert_eq!(as_percentage, 0.0);
}

#[test]
fn test_progress_ratio() {
    let content = "0123456789";
    let progress = calculate_text_progress(content, 10, vec![rr(0, 2), rr(5, 8)]);
    assert_eq!(
        progress,
        TextProgress::Ratio { read_characters: 5, countable_characters: 10 }
    );
}

fn para(index: i64, start: i64, end: i64) -> Paragraph {
    Paragraph {
        paragraph_index: index,
        start_position: start,
        end_position: end,
        character_count: end - start,
    }
}

#[test]
fn test_get_next_unread_paragraph() {
    let paragraphs = vec![para(0, 0, 10), para(1, 12, 20), para(2, 22, 30)];
    let ranges = vec![rr(0, 15)];
    let next = get_next_unread_paragraph(&paragraphs, 0, &ranges).unwrap();
    assert_eq!(next.paragraph_index, 2);
    // nothing unread once every start is covered
    let all = vec![rr(0, 30)];
    assert!(get_next_unread_paragraph(&paragraphs, 0, &all).is_none());
    // paragraphs before the current position are not considered
    let next = get_next_unread_paragraph(&paragraphs, 13, &vec![]).unwrap();
    assert_eq!(next.paragraph_index, 2);
}

#[test]
fn test_continuation_beginning() {
    // no read ranges, no paragraphs recorded: resume from the very start
    let excerpt = get_smart_excerpt("Hello world", &vec![], &vec![]);
    assert_eq!(excerpt.excerpt_type, ExcerptKind::Beginning);
    assert_eq!(excerpt.start_pos, 0);
    assert_eq!(excerpt.excerpt, "Hello world");
    assert_eq!(excerpt.total_length, 11);
    assert_eq!(excerpt.excerpt_type.name(), "beginning");
}

#[test]
fn test_continuation_unread_paragraph() {
    let content = "first\n\nsecond\n\nthird";
    let paragraphs = vec![para(0, 0, 5), para(1, 7, 13), para(2, 15, 20)];
    let ranges = vec![rr(0, 13)];
    let excerpt = get_smart_excerpt(content, &ranges, &paragraphs);
    assert_eq!(excerpt.excerpt_type, ExcerptKind::Unread);
    assert_eq!(excerpt.start_pos, 15);
    assert_eq!(excerpt.excerpt, "third");
    assert_eq!(excerpt.current_position, 13);
}

#[test]
fn test_continuation_lookback_window() {
    // everything read: back up 250 units from the last position
    let content = "x".repeat(300);
    let ranges = vec![rr(0, 300)];
    let excerpt = get_smart_excerpt(&content, &ranges, &vec![]);
    assert_eq!(excerpt.excerpt_type, ExcerptKind::Current);
    assert_eq!(excerpt.start_pos, 50);
    assert_eq!(excerpt.current_position, 300);
}

#[test]
fn test_empty_document_excerpt() {
    let excerpt = get_smart_excerpt("", &vec![], &vec![]);
    assert_eq!(excerpt.excerpt_type, ExcerptKind::Beginning);
    assert_eq!(excerpt.start_pos, 0);
    assert_eq!(excerpt.end_pos, 0);
    assert_eq!(excerpt.excerpt, "");
}

#[test]
fn test_excerpt_snaps_to_newline() {
    // a newline shortly before the 500-unit target ends the excerpt there
    let content = format!("{}\n{}", "a".repeat(480), "b".repeat(200));
    let excerpt = get_smart_excerpt(&content, &vec![], &vec![]);
    assert_eq!(excerpt.start_pos, 0);
    assert_eq!(excerpt.end_pos, 480);
    assert_eq!(excerpt.excerpt, "a".repeat(480));
}

#[test]
fn test_excerpt_snaps_past_period() {
    // with no newline, the excerpt ends just past the last ". "
    let content = format!("{}. {}", "a".repeat(470), "b".repeat(200));
    let excerpt = get_smart_excerpt(&content, &vec![], &vec![]);
    assert_eq!(excerpt.end_pos, 471);
    assert!(excerpt.excerpt.ends_with("a."));
}

#[test]
fn test_excerpt_never_splits_surrogate_pair() {
    // the raw 500-unit cut would fall inside the emoji; the end backs off
    let content = format!("{}😀{}", "x".repeat(499), "y".repeat(100));
    let excerpt = get_smart_excerpt(&content, &vec![], &vec![]);
    assert_eq!(excerpt.end_pos, 499);
    assert_eq!(excerpt.excerpt, "x".repeat(499));
}

#[test]
fn test_excerpt_short_document_fully_read() {
    // a short, fully read document: the lookback clamps to the start
    let content = "ab";
    let excerpt = get_smart_excerpt(content, &vec![rr(0, 2)], &vec![]);
    assert_eq!(excerpt.excerpt, "ab");
    assert_eq!(excerpt.start_pos, 0);
    assert_eq!(excerpt.end_pos, 2);
    assert_eq!(excerpt.excerpt_type, ExcerptKind::Current);
}

#[test]
fn test_study_filter_scopes() {
    assert_eq!(StudyFilter::Global.scope_type(), "global");
    assert_eq!(StudyFilter::Text { text_id: 42 }.scope_type(), "text");
    assert_eq!(
        StudyFilter::Folder { folder_id: "abc".to_string() }.scope_type(),
        "folder"
    );
    assert_eq!(StudyFilter::Global.scope_id(), None);
    assert_eq!(
        StudyFilter::Text { text_id: 42 }.scope_id(),
        Some("42".to_string())
    );
    assert_eq!(
        StudyFilter::Folder { folder_id: "abc".to_string() }.scope_id(),
        Some("abc".to_string())
    );
}

#[test]
fn test_decimal_string_edges() {
    assert_eq!(to_decimal_string(0), "0");
    assert_eq!(to_decimal_string(7), "7");
    assert_eq!(to_decimal_string(-1), "-1");
    assert_eq!(to_decimal_string(1234567890), "1234567890");
    assert_eq!(to_decimal_string(i64::MAX), "9223372036854775807");
    assert_eq!(to_decimal_string(i64::MIN), "-9223372036854775808");
}

#[test]
fn test_get_unread_ranges_empty_document() {
    // a zero-length document has no unread gaps, whatever is stored
    assert_eq!(RangeCalculator::get_unread_ranges(0, vec![]), Vec::<(i64, i64)>::new());
    assert_eq!(RangeCalculator::get_unread_ranges(0, vec![rr(0, 0)]), vec![]);
}

#[test]
fn test_get_unread_ranges_touching_ranges() {
    // touching ranges are contiguous: no gap between them
    assert_eq!(RangeCalculator::get_unread_ranges(10, vec![rr(0, 5), rr(5, 10)]), vec![]);
    assert_eq!(
        RangeCalculator::get_unread_ranges(12, vec![rr(1, 5), rr(5, 10)]),
        vec![(0, 1), (10, 12)]
    );
}

#[test]
fn test_calculate_word_count() {
    assert_eq!(calculate_word_count(""), 0);
    assert_eq!(calculate_word_count("   "), 0);
    assert_eq!(calculate_word_count("one"), 1);
    assert_eq!(calculate_word_count("  two  words \n here  "), 3);
    assert_eq!(calculate_word_count("tabs\tand\nnewlines"), 3);
    assert_eq!(calculate_word_count("wide\u{3000}space"), 2);
}

#[test]
fn test_calculate_paragraph_count() {
    assert_eq!(calculate_paragraph_count(""), 0);
    assert_eq!(calculate_paragraph_count("one paragraph"), 1);
    assert_eq!(calculate_paragraph_count("first\n\nsecond\n\nthird"), 3);
}

#[test]
fn test_sanitize_filename() {
    assert_eq!(sanitize_filename("plain name"), "plain name");
    assert_eq!(sanitize_filename("a/b\\c:d*e?f\"g<h>i|j"), "a_b_c_d_e_f_g_h_i_j");
    assert_eq!(sanitize_filename(""), "untitled");
    // cut to the byte budget, never past it
    let long = "x".repeat(300);
    assert_eq!(sanitize_filename(&long), "x".repeat(200));
    // a multi-byte character straddling the budget is dropped whole
    let tricky = format!("{}é", "y".repeat(199));
    assert_eq!(sanitize_filename(&tricky), "y".repeat(199));
}
