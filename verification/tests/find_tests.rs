use sublime_core::editor::SublimeRustApp;
use sublime_core::find::{Direction, FindState};
use sublime_core::text::{contains_match, cursor_line_col, find_matches};

fn chars_of(s: &str) -> Vec<char> {
    s.chars().collect()
}

#[test]
fn find_matches_reports_character_offsets() {
    // multi-byte characters before a match must not shift the offset
    let text = chars_of("héé foo");
    let q = chars_of("foo");
    assert_eq!(find_matches(&text, &q), vec![4]);
}

#[test]
fn find_matches_are_non_overlapping_left_to_right() {
    assert_eq!(find_matches(&chars_of("aaaa"), &chars_of("aa")), vec![0, 2]);
    assert_eq!(find_matches(&chars_of("xabyabab"), &chars_of("ab")), vec![1, 4, 6]);
}

#[test]
fn recompute_is_idempotent_on_unchanged_content() {
    let mut st = FindState::new();
    st.query = chars_of("ab");
    let content = chars_of("xabyabab");
    st.recompute(&content);
    let first = st.matches.clone();
    let first_cursor = st.cursor;
    st.recompute(&content);
    assert_eq!(st.matches, first);
    assert_eq!(st.cursor, first_cursor);
    st.recompute(&content);
    assert_eq!(st.matches, first);
    assert_eq!(first, vec![1, 4, 6]);
}

#[test]
fn advance_forward_then_backward_returns_cursor() {
    let mut st = FindState::new();
    st.query = chars_of("a");
    let content = chars_of("a a a");
    st.recompute(&content);
    assert_eq!(st.matches, vec![0, 2, 4]);
    for start in 0..3usize {
        st.cursor = Some(start);
        st.advance(Direction::Forward);
        st.advance(Direction::Backward);
        assert_eq!(st.cursor, Some(start));
    }
}

#[test]
fn advance_wraps_at_both_ends() {
    let mut st = FindState::new();
    st.query = chars_of("a");
    st.recompute(&chars_of("aaa"));
    st.cursor = Some(2);
    st.advance(Direction::Forward);
    assert_eq!(st.cursor, Some(0));
    st.advance(Direction::Backward);
    assert_eq!(st.cursor, Some(2));
}

#[test]
fn advance_moves_nothing_without_matches() {
    let mut st = FindState::new();
    st.query = chars_of("zz");
    st.recompute(&chars_of("abc"));
    assert_eq!(st.cursor, None);
    st.advance(Direction::Forward);
    assert_eq!(st.cursor, None);
}

#[test]
fn empty_query_clears_matches_and_cursor() {
    let mut st = FindState::new();
    st.query = chars_of("a");
    st.recompute(&chars_of("aaa"));
    assert_eq!(st.matches.len(), 3);
    st.query = Vec::new();
    st.recompute(&chars_of("aaa"));
    assert!(st.matches.is_empty());
    assert_eq!(st.cursor, None);
}

#[test]
fn cursor_resets_when_it_falls_out_of_range() {
    let mut st = FindState::new();
    st.query = chars_of("a");
    st.recompute(&chars_of("aaa"));
    st.cursor = Some(2);
    st.recompute(&chars_of("a"));
    assert_eq!(st.matches, vec![0]);
    assert_eq!(st.cursor, Some(0));
}

#[test]
fn match_range_spans_the_query() {
    let mut st = FindState::new();
    st.query = chars_of("foo");
    st.recompute(&chars_of("a foo b"));
    assert_eq!(st.current_match_range(), Some((2, 5)));
}

#[test]
fn contains_match_is_plain_substring_search() {
    assert!(contains_match(&chars_of("abc"), &chars_of("b")));
    assert!(!contains_match(&chars_of("abc"), &chars_of("B")));
    assert!(!contains_match(&chars_of("ab"), &chars_of("abc")));
}

#[test]
fn perform_find_scans_the_active_document() {
    let mut app = SublimeRustApp::default();
    assert!(app.open_file(Some(chars_of("a.txt")), Some(chars_of("ab ab"))).is_ok());
    app.set_find_query(chars_of("ab"));
    assert_eq!(app.find.matches, vec![0, 3]);
    assert_eq!(app.find.cursor, Some(0));
    app.perform_find();
    assert_eq!(app.find.matches, vec![0, 3]);
}

#[test]
fn cursor_position_counts_lines_and_columns_from_one() {
    let t = chars_of("ab\ncd\ne");
    assert_eq!(cursor_line_col(&t, 0), (1, 1));
    assert_eq!(cursor_line_col(&t, 2), (1, 3));
    assert_eq!(cursor_line_col(&t, 3), (2, 1));
    assert_eq!(cursor_line_col(&t, 6), (3, 1));
    assert_eq!(cursor_line_col(&t, 7), (3, 2));
}

#[test]
fn move_to_match_hands_out_the_selection_range() {
    let mut app = SublimeRustApp::default();
    assert!(app.open_file(Some(chars_of("a.txt")), Some(chars_of("say foo twice: foo"))).is_ok());
    app.set_find_query(chars_of("foo"));
    assert_eq!(app.move_to_match(), Some((4, 7)));
    app.find.advance(Direction::Forward);
    assert_eq!(app.move_to_match(), Some((15, 18)));
}
