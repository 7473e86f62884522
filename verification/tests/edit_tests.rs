//! Tests of the incremental-edit engine: classification, single and batch
//! application, range resolution, and the batch laws on concrete values.

use lspcat::edit::{ChangeEvent, ErrorKind, Position, Range, ShadowFile, State, sort_by_offset};

fn range(sl: u32, sc: u32, el: u32, ec: u32) -> Range {
    Range { start: Position { line: sl, character: sc }, end: Position { line: el, character: ec } }
}

fn file(text: &str) -> ShadowFile {
    ShadowFile::new(text.as_bytes().to_vec())
}

#[test]
fn classify_empty_text_is_delete() {
    let s = State::of((3, 8), String::new());
    assert!(matches!(s, State::Delete(3, 5)));
}

#[test]
fn classify_empty_span_is_insert() {
    let s = State::of((4, 4), "abc".to_string());
    assert!(matches!(s, State::Insert(4, ref t) if t == "abc"));
}

#[test]
fn classify_nonempty_both_is_replace() {
    let s = State::of((4, 9), "abc".to_string());
    assert!(matches!(s, State::Replace(4, 5, ref t) if t == "abc"));
}

#[test]
fn classify_empty_text_and_span_is_delete() {
    // the empty-text rule wins over the empty-span rule
    let s = State::of((7, 7), String::new());
    assert!(matches!(s, State::Delete(7, 0)));
}

#[test]
fn offset_reports_the_anchor() {
    assert_eq!(State::of((3, 8), String::new()).offset(), 3);
    assert_eq!(State::of((4, 4), "x".to_string()).offset(), 4);
    assert_eq!(State::of((5, 9), "x".to_string()).offset(), 5);
}

#[test]
fn apply_insert() {
    let mut f = file("hello world");
    assert!(f.apply(State::Insert(5, ",".to_string())).is_ok());
    assert_eq!(f.bytes, b"hello, world".to_vec());
}

#[test]
fn apply_delete() {
    let mut f = file("hello world");
    assert!(f.apply(State::Delete(5, 6)).is_ok());
    assert_eq!(f.bytes, b"hello".to_vec());
}

#[test]
fn apply_replace_rewrites_the_resolved_span() {
    let mut f = file("hello world");
    assert!(f.apply(State::Replace(6, 5, "earth".to_string())).is_ok());
    assert_eq!(f.bytes, b"hello earth".to_vec());
}

#[test]
fn apply_replace_shrinks_when_the_text_is_shorter() {
    // the whole replaced span goes, however short the replacement is
    let mut f = file("hello world");
    assert!(f.apply(State::Replace(6, 5, "hi".to_string())).is_ok());
    assert_eq!(f.bytes, b"hello hi".to_vec());
}

#[test]
fn apply_replace_grows_when_the_text_is_longer() {
    let mut f = file("abcd");
    assert!(f.apply(State::Replace(0, 2, "long".to_string())).is_ok());
    assert_eq!(f.bytes, b"longcd".to_vec());
}

#[test]
fn apply_past_the_end_fails_and_changes_nothing() {
    let mut f = file("short");
    let r = f.apply(State::Insert(6, "x".to_string()));
    assert_eq!(r, Err(ErrorKind::IO));
    assert_eq!(f.bytes, b"short".to_vec());
}

#[test]
fn apply_delete_overshooting_the_end_clamps() {
    let mut f = file("hello world");
    assert!(f.apply(State::Delete(5, 100)).is_ok());
    assert_eq!(f.bytes, b"hello".to_vec());
}

#[test]
fn apply_all_in_order() {
    let mut f = file("abcdef");
    let r = f.apply_all(vec![
        State::Replace(0, 1, "A".to_string()),
        State::Delete(2, 1),
        State::Insert(5, "!".to_string()),
    ]);
    assert!(r.is_ok());
    assert_eq!(f.bytes, b"Abde!f".to_vec());
}

#[test]
fn apply_all_unsorted_fails_and_changes_nothing() {
    // the second operation starts below the first one's consumption cursor
    let mut f = file("abcdef");
    let r = f.apply_all(vec![State::Delete(2, 2), State::Insert(3, "x".to_string())]);
    assert_eq!(r, Err(ErrorKind::NotSorted));
    assert_eq!(f.bytes, b"abcdef".to_vec());
}

#[test]
fn apply_all_out_of_bounds_fails_and_changes_nothing() {
    let mut f = file("abc");
    let r = f.apply_all(vec![State::Insert(9, "x".to_string())]);
    assert_eq!(r, Err(ErrorKind::IO));
    assert_eq!(f.bytes, b"abc".to_vec());
}

#[test]
fn apply_all_empty_batch_is_identity() {
    let mut f = file("unchanged");
    assert!(f.apply_all(Vec::new()).is_ok());
    assert_eq!(f.bytes, b"unchanged".to_vec());
}

#[test]
fn batch_equals_sequential_for_length_preserving_ops() {
    // the batch/sequential agreement law on concrete values
    let ops = |_: ()| {
        vec![State::Replace(0, 1, "X".to_string()), State::Replace(4, 2, "YZ".to_string())]
    };
    let mut batch = file("abcdefgh");
    assert!(batch.apply_all(ops(())).is_ok());
    let mut one_at_a_time = file("abcdefgh");
    for op in ops(()) {
        assert!(one_at_a_time.apply(op).is_ok());
    }
    assert_eq!(batch.bytes, one_at_a_time.bytes);
    assert_eq!(batch.bytes, b"XbcdYZgh".to_vec());
}

#[test]
fn batch_equals_sequential_at_shifted_offsets() {
    let mut batch = file("abcdef");
    assert!(batch
        .apply_all(vec![State::Insert(0, "X".to_string()), State::Delete(3, 1)])
        .is_ok());
    assert_eq!(batch.bytes, b"Xabcef".to_vec());
    // one at a time, the insert having shifted the later span right by one
    let mut shifted = file("abcdef");
    assert!(shifted.apply(State::Insert(0, "X".to_string())).is_ok());
    assert!(shifted.apply(State::Delete(4, 1)).is_ok());
    assert_eq!(shifted.bytes, batch.bytes);
    // at its unshifted offset the same deletion lands on the wrong byte
    let mut unshifted = file("abcdef");
    assert!(unshifted.apply(State::Insert(0, "X".to_string())).is_ok());
    assert!(unshifted.apply(State::Delete(3, 1)).is_ok());
    assert_eq!(unshifted.bytes, b"Xabdef".to_vec());
}

#[test]
fn apply_insert_into_an_empty_file() {
    let mut f = file("");
    assert!(f.apply(State::Insert(0, "seed".to_string())).is_ok());
    assert_eq!(f.bytes, b"seed".to_vec());
}

#[test]
fn apply_at_the_largest_offset_fails_cleanly() {
    let mut f = file("tiny");
    let r = f.apply(State::Insert(usize::MAX, "x".to_string()));
    assert_eq!(r, Err(ErrorKind::IO));
    assert_eq!(f.bytes, b"tiny".to_vec());
}

#[test]
fn get_state_on_an_empty_file_keeps_the_seed_columns() {
    let f = file("");
    let s = f.get_state(range(0, 2, 0, 6), String::new());
    assert!(matches!(s, State::Delete(2, 4)));
}

#[test]
fn get_state_resolves_a_single_line_range() {
    let f = file("hello world");
    let s = f.get_state(range(0, 6, 0, 11), "earth".to_string());
    assert!(matches!(s, State::Replace(6, 5, ref t) if t == "earth"));
}

#[test]
fn get_state_resolves_across_lines() {
    // lines: "ab" (3 bytes with terminator), "cd", then "ef"; a range that
    // starts and ends on the second line
    let f = file("ab\ncd\nef");
    let s = f.get_state(range(1, 0, 1, 2), String::new());
    assert!(matches!(s, State::Delete(3, 2)));
}

#[test]
fn iter_states_resolves_a_batch_in_one_scan() {
    let f = file("ab\ncd\nef");
    let states = f.iter_states(vec![
        ChangeEvent { range: Some(range(0, 0, 0, 1)), text: "X".to_string() },
        ChangeEvent { range: Some(range(1, 0, 1, 1)), text: String::new() },
    ]);
    assert_eq!(states.len(), 2);
    assert!(matches!(states[0], State::Replace(0, 1, ref t) if t == "X"));
    assert!(matches!(states[1], State::Delete(3, 1)));
}

#[test]
fn iter_states_skips_events_without_a_range() {
    let f = file("ab\ncd");
    let states = f.iter_states(vec![ChangeEvent { range: None, text: "whole".to_string() }]);
    assert_eq!(states.len(), 0);
}

#[test]
fn sort_by_offset_is_stable() {
    let sorted = sort_by_offset(vec![
        State::Insert(5, "b".to_string()),
        State::Insert(2, "c".to_string()),
        State::Insert(5, "a".to_string()),
    ]);
    assert!(matches!(sorted[0], State::Insert(2, ref t) if t == "c"));
    assert!(matches!(sorted[1], State::Insert(5, ref t) if t == "b"));
    assert!(matches!(sorted[2], State::Insert(5, ref t) if t == "a"));
}

#[test]
fn apply_all_changes_identity_batch_keeps_contents() {
    let mut f = file("hello world");
    assert!(f.apply_all_changes(Vec::new()).is_ok());
    assert_eq!(f.bytes, b"hello world".to_vec());
}

#[test]
fn apply_all_changes_applies_a_ranged_batch() {
    let mut f = file("hello world");
    let r = f.apply_all_changes(vec![ChangeEvent {
        range: Some(range(0, 6, 0, 11)),
        text: "earth".to_string(),
    }]);
    assert!(r.is_ok());
    assert_eq!(f.bytes, b"hello earth".to_vec());
}

#[test]
fn apply_all_changes_replacement_may_change_the_length() {
    let mut f = file("hello world");
    let r = f.apply_all_changes(vec![ChangeEvent {
        range: Some(range(0, 6, 0, 11)),
        text: "hi".to_string(),
    }]);
    assert!(r.is_ok());
    assert_eq!(f.bytes, b"hello hi".to_vec());
}

#[test]
fn apply_all_changes_full_event_replaces_the_document() {
    let mut f = file("old contents");
    let r = f.apply_all_changes(vec![ChangeEvent { range: None, text: "new".to_string() }]);
    assert!(r.is_ok());
    assert_eq!(f.bytes, b"new".to_vec());
}

#[test]
fn apply_all_changes_sorts_by_resolved_offset() {
    // events arrive end-first; the engine sorts by resolved start offset
    let mut f = file("abcdef");
    let r = f.apply_all_changes(vec![
        ChangeEvent { range: Some(range(0, 4, 0, 5)), text: "E".to_string() },
        ChangeEvent { range: Some(range(0, 1, 0, 2)), text: "B".to_string() },
    ]);
    assert!(r.is_ok());
    assert_eq!(f.bytes, b"aBcdEf".to_vec());
}
