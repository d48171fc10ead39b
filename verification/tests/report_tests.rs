use sublime_core::editor::SublimeRustApp;
use sublime_core::key::DocKey;
use sublime_core::report::FileEntry;

fn chars_of(s: &str) -> Vec<char> {
    s.chars().collect()
}

fn string_of(v: &[char]) -> String {
    v.iter().collect()
}

fn entry(path: &str, content: &str) -> FileEntry {
    FileEntry { path: chars_of(path), content: chars_of(content) }
}

#[test]
fn search_reports_matching_lines_and_summary() {
    let mut app = SublimeRustApp::default();
    app.files.find_query = chars_of("foo");
    app.files.where_root = chars_of("tree");
    let files = vec![entry("a.txt", "foo\nbar\nfoo baz")];
    app.perform_find_in_files(&files);
    let report = app.files.last_report.clone().unwrap();
    assert_eq!(
        string_of(&report),
        "\na.txt:\n  1: foo\n  3: foo baz\n\n2 matches found in 1 files."
    );
}

#[test]
fn the_report_becomes_the_active_tab() {
    let mut app = SublimeRustApp::default();
    assert!(app.open_file(Some(chars_of("a.txt")), Some(chars_of("foo"))).is_ok());
    app.files.find_query = chars_of("foo");
    app.perform_find_in_files(&vec![entry("a.txt", "foo")]);
    assert_eq!(app.session.docs.len(), 2);
    let active = app.session.active_index.unwrap();
    assert!(matches!(app.session.docs[active], DocKey::Report(_)));
    let report = app.files.last_report.clone().unwrap();
    let shown = app.session.contents.get(&app.session.docs[active].dup()).unwrap();
    assert_eq!(string_of(shown), string_of(&report));
}

#[test]
fn rerunning_the_same_search_overwrites_the_report_in_place() {
    let mut app = SublimeRustApp::default();
    app.files.find_query = chars_of("foo");
    app.files.where_root = chars_of("tree");
    app.perform_find_in_files(&vec![entry("a.txt", "foo")]);
    assert_eq!(app.session.docs.len(), 1);
    let first_key = app.session.docs[0].dup();
    app.perform_find_in_files(&vec![entry("a.txt", "no match here")]);
    // same key, no duplicate tab, fresh content
    assert_eq!(app.session.docs.len(), 1);
    assert!(app.session.docs[0].key_eq(&first_key));
    let report = app.files.last_report.clone().unwrap();
    assert_eq!(string_of(&report), "\n0 matches found in 0 files.");
}

#[test]
fn a_different_query_gets_its_own_report_tab() {
    let mut app = SublimeRustApp::default();
    app.files.find_query = chars_of("foo");
    app.perform_find_in_files(&vec![entry("a.txt", "foo bar")]);
    app.files.find_query = chars_of("bar");
    app.perform_find_in_files(&vec![entry("a.txt", "foo bar")]);
    assert_eq!(app.session.docs.len(), 2);
    assert!(!app.session.docs[0].key_eq(&app.session.docs[1]));
}

#[test]
fn an_empty_query_only_clears_the_report() {
    let mut app = SublimeRustApp::default();
    app.files.find_query = chars_of("foo");
    app.perform_find_in_files(&vec![entry("a.txt", "foo")]);
    assert!(app.files.last_report.is_some());
    app.files.find_query = Vec::new();
    app.perform_find_in_files(&vec![entry("a.txt", "foo")]);
    assert!(app.files.last_report.is_none());
    assert_eq!(app.session.docs.len(), 1);
}

#[test]
fn reported_lines_are_trimmed_and_numbered_from_one() {
    let mut app = SublimeRustApp::default();
    app.files.find_query = chars_of("foo");
    app.perform_find_in_files(&vec![entry("a.txt", "   foo here\t \nskip\nfoo")]);
    let report = app.files.last_report.clone().unwrap();
    assert_eq!(
        string_of(&report),
        "\na.txt:\n  1: foo here\n  3: foo\n\n2 matches found in 1 files."
    );
}

#[test]
fn summary_counts_matches_over_all_files() {
    let mut app = SublimeRustApp::default();
    app.files.find_query = chars_of("x");
    let files = vec![
        entry("a.txt", "x\nx\nx"),
        entry("b.txt", "nothing"),
        entry("c.txt", "x marks"),
    ];
    app.perform_find_in_files(&files);
    let report = string_of(&app.files.last_report.clone().unwrap());
    assert!(report.ends_with("\n4 matches found in 2 files."));
    assert!(!report.contains("b.txt"));
}

#[test]
fn line_numbers_reach_double_digits() {
    let mut app = SublimeRustApp::default();
    app.files.find_query = chars_of("hit");
    let content = "-\n-\n-\n-\n-\n-\n-\n-\n-\nhit";
    app.perform_find_in_files(&vec![entry("a.txt", content)]);
    let report = string_of(&app.files.last_report.clone().unwrap());
    assert_eq!(report, "\na.txt:\n  10: hit\n\n1 matches found in 1 files.");
}

#[test]
fn crlf_line_endings_are_stripped_from_records() {
    let mut app = SublimeRustApp::default();
    app.files.find_query = chars_of("foo");
    app.perform_find_in_files(&vec![entry("a.txt", "foo\r\nbar\r\nfoo")]);
    let report = string_of(&app.files.last_report.clone().unwrap());
    assert_eq!(report, "\na.txt:\n  1: foo\n  3: foo\n\n2 matches found in 1 files.");
}

#[test]
fn entries_the_walk_withholds_never_reach_the_report() {
    // the traversal decides what the engine sees: a file an ignore rule
    // suppressed simply never arrives
    let visible = vec![entry("a.txt", "foo")];
    let all = vec![entry("a.txt", "foo"), entry("sub/b.txt", "foo")];
    let mut app = SublimeRustApp::default();
    app.files.find_query = chars_of("foo");
    app.files.where_root = chars_of("tree");
    app.perform_find_in_files(&visible);
    let filtered = string_of(&app.files.last_report.clone().unwrap());
    assert!(filtered.ends_with("\n1 matches found in 1 files."));
    assert!(!filtered.contains("sub/b.txt"));
    app.perform_find_in_files(&all);
    let unfiltered = string_of(&app.files.last_report.clone().unwrap());
    assert!(unfiltered.ends_with("\n2 matches found in 2 files."));
    assert!(unfiltered.contains("sub/b.txt"));
}

#[test]
fn a_report_tab_is_never_saved_and_never_dirty() {
    let mut app = SublimeRustApp::default();
    app.files.find_query = chars_of("foo");
    app.perform_find_in_files(&vec![entry("a.txt", "foo")]);
    let active = app.session.active_index.unwrap();
    let key = app.session.docs[active].dup();
    assert!(matches!(key, DocKey::Report(_)));
    // saving the active report yields no write at all
    assert!(app.save_active_file().is_none());
    assert!(app.save_as_active_file(&chars_of("out.txt")).is_none());
    // editing the report buffer never marks it dirty
    app.set_active_content(chars_of("scribbles"));
    assert!(!app.session.dirty.contains(&key));
    assert!(app.save_all_files().is_empty());
}
