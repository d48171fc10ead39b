use sublime_core::editor::SublimeRustApp;
use sublime_core::key::DocKey;
use sublime_core::report::FileEntry;
use sublime_core::text::replace_all;

fn chars_of(s: &str) -> Vec<char> {
    s.chars().collect()
}

fn string_of(v: &[char]) -> String {
    v.iter().collect()
}

fn entry(path: &str, content: &str) -> FileEntry {
    FileEntry { path: chars_of(path), content: chars_of(content) }
}

#[test]
fn replace_rewrites_every_occurrence() {
    let mut app = SublimeRustApp::default();
    app.files.find_query = chars_of("foo");
    app.files.replace_query = chars_of("qux");
    let jobs = app.replacement_jobs(&vec![entry("a.txt", "foo\nbar\nfoo baz")]);
    assert_eq!(jobs.len(), 1);
    assert_eq!(string_of(&jobs[0].path), "a.txt");
    assert_eq!(string_of(&jobs[0].content), "qux\nbar\nqux baz");
}

#[test]
fn files_without_a_match_are_left_alone() {
    let mut app = SublimeRustApp::default();
    app.files.find_query = chars_of("foo");
    app.files.replace_query = chars_of("qux");
    let jobs = app.replacement_jobs(&vec![
        entry("a.txt", "nothing here"),
        entry("b.txt", "foo"),
    ]);
    assert_eq!(jobs.len(), 1);
    assert_eq!(string_of(&jobs[0].path), "b.txt");
}

#[test]
fn an_empty_find_query_rewrites_nothing() {
    let mut app = SublimeRustApp::default();
    app.files.replace_query = chars_of("qux");
    let jobs = app.replacement_jobs(&vec![entry("a.txt", "foo")]);
    assert!(jobs.is_empty());
}

#[test]
fn refresh_after_replace_updates_the_open_tab_without_dirtying_it() {
    let mut app = SublimeRustApp::default();
    assert!(app.open_file(Some(chars_of("a.txt")), Some(chars_of("foo\nbar\nfoo baz"))).is_ok());
    app.refresh_disk_content(&chars_of("a.txt"), chars_of("qux\nbar\nqux baz"));
    let key = DocKey::Real(chars_of("a.txt"));
    assert_eq!(string_of(app.session.contents.get(&key).unwrap()), "qux\nbar\nqux baz");
    assert!(!app.session.dirty.contains(&key));
}

#[test]
fn refresh_of_an_unseen_path_changes_nothing() {
    let mut app = SublimeRustApp::default();
    assert!(app.open_file(Some(chars_of("a.txt")), Some(chars_of("one"))).is_ok());
    app.refresh_disk_content(&chars_of("other.txt"), chars_of("text"));
    assert!(app.session.contents.get(&DocKey::Real(chars_of("other.txt"))).is_none());
}

#[test]
fn replacement_is_left_to_right_and_non_overlapping() {
    let out = replace_all(&chars_of("aaa"), &chars_of("aa"), &chars_of("b"));
    assert_eq!(string_of(&out), "ba");
}

#[test]
fn replacement_text_may_contain_the_query() {
    // each occurrence in the original text is replaced exactly once
    let out = replace_all(&chars_of("foo x foo"), &chars_of("foo"), &chars_of("foofoo"));
    assert_eq!(string_of(&out), "foofoo x foofoo");
}

#[test]
fn replacement_by_the_empty_text_deletes_occurrences() {
    let out = replace_all(&chars_of("a-b-c"), &chars_of("-"), &chars_of(""));
    assert_eq!(string_of(&out), "abc");
}

#[test]
fn search_after_replace_reports_no_stale_matches() {
    let mut app = SublimeRustApp::default();
    app.files.find_query = chars_of("foo");
    app.files.replace_query = chars_of("qux");
    let before = vec![entry("a.txt", "foo\nbar\nfoo baz")];
    let jobs = app.replacement_jobs(&before);
    // the re-run search sees the rewritten tree
    app.perform_find_in_files(&jobs);
    let report = string_of(&app.files.last_report.clone().unwrap());
    assert!(report.ends_with("\n0 matches found in 0 files."));
}
