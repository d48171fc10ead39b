use sublime_core::editor::{CloseDecision, SublimeRustApp};
use sublime_core::key::DocKey;

fn chars_of(s: &str) -> Vec<char> {
    s.chars().collect()
}

fn string_of(v: &[char]) -> String {
    v.iter().collect()
}

fn app_with_tabs(len: usize) -> SublimeRustApp {
    let mut app = SublimeRustApp::default();
    for k in 0..len {
        let path = chars_of(&format!("f{}", k));
        assert!(app.open_file(Some(path), Some(chars_of("x"))).is_ok());
    }
    app
}

#[test]
fn close_tab_renumbers_active_for_every_pair() {
    for &len in &[1usize, 2, 3, 5] {
        for a in 0..len {
            for i in 0..len {
                let mut app = app_with_tabs(len);
                // activate tab `a` by opening its path again
                assert!(app.open_file(Some(chars_of(&format!("f{}", a))), None).is_ok());
                assert_eq!(app.session.active_index, Some(a));
                app.close_tab(i);
                let expected = if i == a {
                    if len == 1 {
                        None
                    } else if i >= len - 1 {
                        Some(len - 2)
                    } else {
                        Some(i)
                    }
                } else if i < a {
                    Some(a - 1)
                } else {
                    Some(a)
                };
                assert_eq!(app.session.active_index, expected, "len={} a={} i={}", len, a, i);
                assert_eq!(app.session.docs.len(), len - 1);
            }
        }
    }
}

#[test]
fn reopening_a_path_activates_the_existing_tab() {
    let mut app = SublimeRustApp::default();
    assert!(app.open_file(Some(chars_of("a.txt")), Some(chars_of("one"))).is_ok());
    assert!(app.open_file(Some(chars_of("b.txt")), Some(chars_of("two"))).is_ok());
    assert_eq!(app.session.docs.len(), 2);
    assert_eq!(app.session.active_index, Some(1));
    // the same path again: activated, not duplicated, not reloaded
    assert!(app.open_file(Some(chars_of("a.txt")), Some(chars_of("fresh"))).is_ok());
    assert_eq!(app.session.docs.len(), 2);
    assert_eq!(app.session.active_index, Some(0));
    let key = DocKey::Real(chars_of("a.txt"));
    let content = app.session.contents.get(&key).unwrap();
    assert_eq!(string_of(content), "one");
}

#[test]
fn failed_load_reports_error_and_changes_nothing() {
    let mut app = SublimeRustApp::default();
    assert!(app.open_file(Some(chars_of("a.txt")), None).is_err());
    assert_eq!(app.session.docs.len(), 0);
    assert_eq!(app.session.active_index, None);
}

#[test]
fn cancelled_picker_is_no_error_and_no_change() {
    let mut app = SublimeRustApp::default();
    assert!(app.open_file(None, None).is_ok());
    assert_eq!(app.session.docs.len(), 0);
    assert!(app.root_dir.is_none());
}

#[test]
fn opening_a_file_sets_the_root_from_its_parent() {
    let mut app = SublimeRustApp::default();
    assert!(app.open_file(Some(chars_of("dir/sub/a.txt")), Some(chars_of("x"))).is_ok());
    assert_eq!(string_of(app.root_dir.as_ref().unwrap()), "dir/sub");
    // an existing root is kept
    assert!(app.open_file(Some(chars_of("other/b.txt")), Some(chars_of("y"))).is_ok());
    assert_eq!(string_of(app.root_dir.as_ref().unwrap()), "dir/sub");
}

#[test]
fn open_folder_adopts_the_chosen_directory() {
    let mut app = SublimeRustApp::default();
    app.open_folder(None);
    assert!(app.root_dir.is_none());
    app.open_folder(Some(chars_of("proj")));
    assert_eq!(string_of(app.root_dir.as_ref().unwrap()), "proj");
}

#[test]
fn editing_marks_the_active_document_dirty() {
    let mut app = SublimeRustApp::default();
    assert!(app.open_file(Some(chars_of("a.txt")), Some(chars_of("one"))).is_ok());
    let key = DocKey::Real(chars_of("a.txt"));
    assert!(!app.session.dirty.contains(&key));
    app.set_active_content(chars_of("one more"));
    assert!(app.session.dirty.contains(&key));
    assert_eq!(string_of(app.session.contents.get(&key).unwrap()), "one more");
}

#[test]
fn closing_a_dirty_tab_awaits_the_decision() {
    let mut app = SublimeRustApp::default();
    assert!(app.open_file(Some(chars_of("a.txt")), Some(chars_of("one"))).is_ok());
    app.set_active_content(chars_of("one!"));
    let key = DocKey::Real(chars_of("a.txt"));
    app.close_tab(0);
    // not removed: the decision is pending
    assert_eq!(app.session.docs.len(), 1);
    assert_eq!(app.session.pending_close, Some(0));
    // cancel leaves it open and dirty
    assert!(app.resolve_pending(CloseDecision::Cancel).is_none());
    assert_eq!(app.session.docs.len(), 1);
    assert!(app.session.dirty.contains(&key));
    assert_eq!(app.session.pending_close, None);
}

#[test]
fn resolving_with_save_hands_back_the_write_and_closes() {
    let mut app = SublimeRustApp::default();
    assert!(app.open_file(Some(chars_of("a.txt")), Some(chars_of("one"))).is_ok());
    app.set_active_content(chars_of("one!"));
    app.close_tab(0);
    let job = app.resolve_pending(CloseDecision::Save).unwrap();
    assert_eq!(string_of(&job.path), "a.txt");
    assert_eq!(string_of(&job.text), "one!");
    assert_eq!(app.session.docs.len(), 0);
    assert_eq!(app.session.pending_close, None);
}

#[test]
fn resolving_with_discard_closes_without_a_write() {
    let mut app = SublimeRustApp::default();
    assert!(app.open_file(Some(chars_of("a.txt")), Some(chars_of("one"))).is_ok());
    app.set_active_content(chars_of("one!"));
    app.close_tab(0);
    assert!(app.resolve_pending(CloseDecision::Discard).is_none());
    assert_eq!(app.session.docs.len(), 0);
}

#[test]
fn clean_tab_closes_at_once() {
    let mut app = SublimeRustApp::default();
    assert!(app.open_file(Some(chars_of("a.txt")), Some(chars_of("one"))).is_ok());
    app.close_tab(0);
    assert_eq!(app.session.docs.len(), 0);
    assert_eq!(app.session.pending_close, None);
    assert_eq!(app.session.active_index, None);
}

#[test]
fn save_clears_dirty_only_on_success() {
    let mut app = SublimeRustApp::default();
    assert!(app.open_file(Some(chars_of("a.txt")), Some(chars_of("one"))).is_ok());
    app.set_active_content(chars_of("two"));
    let key = DocKey::Real(chars_of("a.txt"));
    let job = app.save_active_file().unwrap();
    assert_eq!(string_of(&job.path), "a.txt");
    assert_eq!(string_of(&job.text), "two");
    // a failed write keeps the dirty flag for a retry
    app.apply_save_result(&key, false);
    assert!(app.session.dirty.contains(&key));
    app.apply_save_result(&key, true);
    assert!(!app.session.dirty.contains(&key));
}

#[test]
fn save_all_lists_every_dirty_document() {
    let mut app = SublimeRustApp::default();
    assert!(app.open_file(Some(chars_of("a.txt")), Some(chars_of("one"))).is_ok());
    app.set_active_content(chars_of("one!"));
    assert!(app.open_file(Some(chars_of("b.txt")), Some(chars_of("two"))).is_ok());
    app.set_active_content(chars_of("two!"));
    let jobs = app.save_all_files();
    assert_eq!(jobs.len(), 2);
    let mut paths: Vec<String> = jobs.iter().map(|j| string_of(&j.path)).collect();
    paths.sort();
    assert_eq!(paths, vec!["a.txt".to_string(), "b.txt".to_string()]);
}

#[test]
fn save_all_is_empty_when_nothing_is_dirty() {
    let mut app = SublimeRustApp::default();
    assert!(app.open_file(Some(chars_of("a.txt")), Some(chars_of("one"))).is_ok());
    assert!(app.save_all_files().is_empty());
}

#[test]
fn save_as_renames_the_tab_in_place() {
    let mut app = SublimeRustApp::default();
    assert!(app.open_file(Some(chars_of("a.txt")), Some(chars_of("one"))).is_ok());
    assert!(app.open_file(Some(chars_of("b.txt")), Some(chars_of("two"))).is_ok());
    assert!(app.open_file(Some(chars_of("a.txt")), None).is_ok());
    app.set_active_content(chars_of("one!"));
    let job = app.save_as_active_file(&chars_of("c.txt")).unwrap();
    assert_eq!(string_of(&job.path), "c.txt");
    assert_eq!(string_of(&job.text), "one!");
    assert!(app.apply_save_as(chars_of("c.txt")));
    // the tab kept its place, under the new key, no longer dirty
    assert_eq!(app.session.docs.len(), 2);
    assert!(app.session.docs[0].key_eq(&DocKey::Real(chars_of("c.txt"))));
    assert!(app.session.docs[1].key_eq(&DocKey::Real(chars_of("b.txt"))));
    assert_eq!(app.session.active_index, Some(0));
    assert!(!app.session.dirty.contains(&DocKey::Real(chars_of("c.txt"))));
    let content = app.session.contents.get(&DocKey::Real(chars_of("c.txt"))).unwrap();
    assert_eq!(string_of(content), "one!");
}

#[test]
fn save_as_refuses_a_path_open_in_another_tab() {
    let mut app = SublimeRustApp::default();
    assert!(app.open_file(Some(chars_of("a.txt")), Some(chars_of("one"))).is_ok());
    assert!(app.open_file(Some(chars_of("b.txt")), Some(chars_of("two"))).is_ok());
    assert!(!app.apply_save_as(chars_of("a.txt")));
    assert_eq!(app.session.docs.len(), 2);
    assert!(app.session.docs[1].key_eq(&DocKey::Real(chars_of("b.txt"))));
}

#[test]
fn closed_tabs_keep_their_cached_text_for_the_session() {
    let mut app = SublimeRustApp::default();
    assert!(app.open_file(Some(chars_of("a.txt")), Some(chars_of("kept"))).is_ok());
    app.close_tab(0);
    assert_eq!(app.session.docs.len(), 0);
    let key = DocKey::Real(chars_of("a.txt"));
    assert_eq!(string_of(app.session.contents.get(&key).unwrap()), "kept");
}
