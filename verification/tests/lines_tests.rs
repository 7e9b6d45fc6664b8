use rust_examples::lines::{action_for_entry, add_file_lines, classify_entry, count_lines, EntryAction, LineCounter};

#[test]
fn counts_lines_with_and_without_final_newline() {
    assert_eq!(count_lines(b""), 0);
    assert_eq!(count_lines(b"one"), 1);
    assert_eq!(count_lines(b"one\n"), 1);
    assert_eq!(count_lines(b"one\ntwo"), 2);
    assert_eq!(count_lines(b"one\ntwo\n"), 2);
    assert_eq!(count_lines(b"\n\n\n"), 3);
}

#[test]
fn chunked_counting_matches_whole_counting() {
    let text = b"alpha\nbeta\n\ngamma\ndelta";
    for size in 1..text.len() + 1 {
        let mut counter = LineCounter::new();
        for chunk in text.chunks(size) {
            counter.feed(chunk);
        }
        assert_eq!(counter.total(), count_lines(text));
    }
    assert_eq!(count_lines(text), 5);
}

#[test]
fn newlines_so_far_are_reported() {
    let mut counter = LineCounter::new();
    counter.feed(b"a\nb");
    assert_eq!(counter.newlines(), 1);
    counter.feed(b"\n");
    assert_eq!(counter.newlines(), 2);
    assert_eq!(counter.total(), 2);
}

#[test]
fn symbolic_links_are_skipped() {
    assert_eq!(classify_entry(true, true, false, "src"), EntryAction::Skip);
    assert_eq!(classify_entry(true, false, true, "a.txt"), EntryAction::Skip);
}

#[test]
fn tool_directories_are_skipped() {
    for name in [".git", ".venv", "node_modules", "__pycache__"] {
        assert_eq!(classify_entry(false, true, false, name), EntryAction::Skip);
    }
    assert_eq!(classify_entry(false, true, false, "src"), EntryAction::Descend);
    assert_eq!(classify_entry(false, true, false, ".GIT"), EntryAction::Descend);
}

#[test]
fn spreadsheets_are_skipped_in_any_case() {
    assert_eq!(classify_entry(false, false, true, "table.xls"), EntryAction::Skip);
    assert_eq!(classify_entry(false, false, true, "table.XLSX"), EntryAction::Skip);
    assert_eq!(classify_entry(false, false, true, "table.xlsm"), EntryAction::Count);
    assert_eq!(classify_entry(false, false, true, "main.rs"), EntryAction::Count);
    assert_eq!(classify_entry(false, false, true, "Makefile"), EntryAction::Count);
    assert_eq!(classify_entry(false, false, true, ".xls"), EntryAction::Count);
}

#[test]
fn other_entries_are_skipped() {
    assert_eq!(classify_entry(false, false, false, "fifo"), EntryAction::Skip);
}

#[test]
fn checked_feeding_counts_like_feeding() {
    let mut counter = LineCounter::new();
    assert!(counter.try_feed(b"x\ny\n"));
    assert!(counter.try_feed(b"z"));
    assert_eq!(counter.newlines(), 2);
    assert!(counter.total_fits());
    assert_eq!(counter.total(), 3);
    let fresh = LineCounter::new();
    assert!(fresh.total_fits());
    assert_eq!(fresh.total(), 0);
}

#[test]
fn spreadsheets_are_skipped_by_extension_in_any_case() {
    assert_eq!(action_for_entry(false, false, true, "a", Some("XlS".to_string())), EntryAction::Skip);
    assert_eq!(action_for_entry(false, false, true, "a", Some("xlsX".to_string())), EntryAction::Skip);
    assert_eq!(action_for_entry(false, false, true, "a", Some("xlsm".to_string())), EntryAction::Count);
    assert_eq!(action_for_entry(false, false, true, "a", None), EntryAction::Count);
    assert_eq!(action_for_entry(false, true, false, "node_modules", None), EntryAction::Skip);
    assert_eq!(action_for_entry(false, true, false, "src", None), EntryAction::Descend);
    assert_eq!(action_for_entry(false, false, false, "fifo", None), EntryAction::Skip);
}

#[test]
fn running_total_adds_or_reports_overflow() {
    assert_eq!(add_file_lines(3, 4), Some(7));
    assert_eq!(add_file_lines(usize::MAX, 0), Some(usize::MAX));
    assert_eq!(add_file_lines(usize::MAX, 1), None);
}
