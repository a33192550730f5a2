use indexed_line_reader::LinesIndex;
use std::collections::BTreeMap;

fn numbered_lines(from: u64, to: u64) -> Vec<u8> {
    let mut content = Vec::new();
    for i in from..to {
        content.extend_from_slice(format!("{}\n", i).as_bytes());
    }
    content
}

/// Offset of the first byte of each line.
fn line_starts(content: &[u8]) -> Vec<u64> {
    let mut starts = vec![0u64];
    for (i, &b) in content.iter().enumerate() {
        if b == b'\n' && i + 1 < content.len() {
            starts.push(i as u64 + 1);
        }
    }
    starts
}

#[test]
fn new_index_is_empty() {
    let index = LinesIndex::new(7);
    assert_eq!(index.line_count(), 0);
    assert_eq!(index.byte_count(), 0);
    assert_eq!(index.granularity(), 7);
    assert_eq!(index.last_indexed_pos(), None);
    assert!(index.get_ref().is_empty());
}

#[test]
fn compute_empty_stream() {
    let mut index = LinesIndex::new(3);
    assert_eq!(index.compute(&[]), 0);
    assert_eq!(index.line_count(), 0);
    assert_eq!(index.byte_count(), 0);
    assert!(index.get_ref().is_empty());
}

#[test]
fn compute_records_every_granularity_th_line() {
    let content = numbered_lines(0, 25);
    let starts = line_starts(&content);
    let mut index = LinesIndex::new(10);
    assert_eq!(index.compute(&content), 25);
    assert_eq!(index.byte_count(), content.len() as u64);
    let expected: BTreeMap<u64, u64> = [(10, starts[10]), (20, starts[20])].into_iter().collect();
    assert_eq!(index.get_ref(), &expected);
    assert_eq!(index.byte_count_at_pos(&10), Some(20));
    assert_eq!(index.byte_count_at_pos(&20), Some(50));
    assert_eq!(index.byte_count_at_pos(&15), None);
    assert_eq!(index.last_indexed_pos(), Some(20));
}

#[test]
fn compute_counts_unterminated_last_line_with_one_terminator_byte() {
    let mut index = LinesIndex::new(2);
    assert_eq!(index.compute(b"ab\ncd"), 2);
    assert_eq!(index.byte_count(), 6);
    assert_eq!(index.byte_count_at_pos(&2), Some(6));
}

#[test]
fn compute_again_without_new_data_keeps_everything() {
    // 30 lines with granularity 10: the last entry is at the end of the stream.
    let content = numbered_lines(0, 30);
    let mut index = LinesIndex::new(10);
    index.compute(&content);
    let first = index.clone();
    assert_eq!(index.compute(&content), 30);
    assert_eq!(index.line_count(), first.line_count());
    assert_eq!(index.byte_count(), first.byte_count());
    assert_eq!(index.get_ref(), first.get_ref());
    assert_eq!(index, first);
    // Fewer lines than the granularity: nothing recorded.
    let short = numbered_lines(0, 7);
    let mut index = LinesIndex::new(10);
    assert_eq!(index.compute(&short), 7);
    assert_eq!(index.compute(&short), 7);
    assert_eq!(index.byte_count(), short.len() as u64);
}

#[test]
fn compute_again_keeps_line_total_when_not_a_multiple() {
    // 25 lines with granularity 10: computing again resumes at line 20 and
    // counts it, so the totals stay as they were.
    let content = numbered_lines(0, 25);
    let mut index = LinesIndex::new(10);
    assert_eq!(index.compute(&content), 25);
    let first = index.clone();
    assert_eq!(index.compute(&content), 25);
    assert_eq!(index.byte_count(), content.len() as u64);
    assert_eq!(index, first);
}

#[test]
fn compute_twice_over_empty_lines() {
    let mut index = LinesIndex::new(2);
    assert_eq!(index.compute(b"\n\n\n"), 3);
    assert_eq!(index.compute(b"\n\n\n"), 3);
    assert_eq!(index.byte_count(), 3);
    assert_eq!(index.compute(b"\n\n\n\n"), 4);
    let mut once = LinesIndex::new(2);
    assert_eq!(once.compute(b"\n\n\n\n"), 4);
    assert_eq!(index, once);
}

#[test]
fn entries_after_append_are_at_line_starts() {
    let mut index = LinesIndex::new(2);
    index.compute(b"\n\n\n");
    assert_eq!(index.compute(b"\n\n\na\nbb\n"), 5);
    assert_eq!(index.byte_count_at_pos(&2), Some(2));
    assert_eq!(index.byte_count_at_pos(&4), Some(5));
    assert_eq!(index.byte_count(), 8);
}

#[test]
fn incremental_compute_agrees_below_first_line_count() {
    let first = numbered_lines(0, 25);
    let mut all = first.clone();
    all.extend_from_slice(&numbered_lines(25, 58));
    let mut twice = LinesIndex::new(10);
    twice.compute(&first);
    twice.compute(&all);
    let mut once = LinesIndex::new(10);
    once.compute(&all);
    for k in 0..=25u64 {
        assert_eq!(twice.byte_count_at_pos(&k), once.byte_count_at_pos(&k));
    }
    assert_eq!(twice.last_indexed_pos(), Some(50));
    assert_eq!(twice, once);
    assert_eq!(twice.line_count(), 58);
    assert_eq!(twice.byte_count(), all.len() as u64);
}

#[test]
fn incremental_compute_from_no_entries_equals_one_computation() {
    let first = numbered_lines(0, 7);
    let mut all = first.clone();
    all.extend_from_slice(&numbered_lines(7, 43));
    let mut twice = LinesIndex::new(10);
    twice.compute(&first);
    twice.compute(&all);
    let mut once = LinesIndex::new(10);
    once.compute(&all);
    assert_eq!(twice.get_ref(), once.get_ref());
    assert_eq!(twice.line_count(), 43);
    assert_eq!(twice.byte_count(), once.byte_count());
}

#[test]
fn incremental_compute_without_new_boundary_equals_one_computation() {
    let first = numbered_lines(0, 21);
    let mut all = first.clone();
    all.extend_from_slice(&numbered_lines(21, 28));
    let mut twice = LinesIndex::new(10);
    twice.compute(&first);
    twice.compute(&all);
    let mut once = LinesIndex::new(10);
    once.compute(&all);
    assert_eq!(twice.get_ref(), once.get_ref());
}

#[test]
fn insert_returns_previous_offset() {
    let mut index = LinesIndex::new(4);
    assert_eq!(index.insert(8, 100), None);
    assert_eq!(index.insert(8, 120), Some(100));
    assert_eq!(index.insert(4, 50), None);
    assert_eq!(index.byte_count_at_pos(&8), Some(120));
    assert_eq!(index.last_indexed_pos(), Some(8));
}

#[test]
fn clear_drops_entries_and_totals() {
    let content = numbered_lines(0, 25);
    let mut index = LinesIndex::new(10);
    index.compute(&content);
    index.clear();
    assert!(index.get_ref().is_empty());
    assert_eq!(index.line_count(), 0);
    assert_eq!(index.byte_count(), 0);
    assert_eq!(index.granularity(), 10);
    assert_eq!(index.compute(&content), 25);
}

#[test]
fn get_mut_and_into_inner() {
    let mut index = LinesIndex::new(5);
    index.get_mut().insert(5, 11);
    assert_eq!(index.byte_count_at_pos(&5), Some(11));
    let map = index.into_inner();
    assert_eq!(map.get(&5), Some(&11));
    assert_eq!(map.len(), 1);
}
