use vstd::prelude::*;

use crate::find::{recompute_spec, FindState, FindView};
use crate::key::{copy_text, DocKey, KeyView};
use crate::report::{files_view, replace_in_files, replace_jobs_view, report_text, search_report, FileEntry};
use crate::session::{
    active_after_remove, opened, opt_text_view, pending_after_remove, shown, LoadError, Session,
    SessionView,
};

verus! {

/// One recorded find-in-files run: the root it searched, the query, and
/// the report token it was issued.
#[verifier::ext_equal]
pub struct RunView {
    pub root: Seq<char>,
    pub query: Seq<char>,
    pub id: u64,
}

/// One recorded find-in-files run.
pub struct ReportRun {
    pub root: Vec<char>,
    pub query: Vec<char>,
    pub id: u64,
}

impl View for ReportRun {
    type V = RunView;

    open spec fn view(&self) -> RunView {
        RunView { root: self.root@, query: self.query@, id: self.id }
    }
}

/// The recorded runs of a list.
pub open spec fn run_views(s: Seq<ReportRun>) -> Seq<RunView> {
    s.map_values(|r: ReportRun| r@)
}

/// The mathematical state of the find-in-files engine.
#[verifier::ext_equal]
pub struct FilesView {
    pub find_query: Seq<char>,
    pub replace_query: Seq<char>,
    pub where_root: Seq<char>,
    pub respect_ignore: bool,
    pub last_report: Option<Seq<char>>,
    pub runs: Seq<RunView>,
    pub next_report_id: u64,
}

/// The find-in-files engine: the queries, the root to search, whether
/// ignore rules suppress entries, the last generated report, and the
/// registry that keeps one report token per root-and-query pair.
pub struct FindFilesState {
    pub find_query: Vec<char>,
    pub replace_query: Vec<char>,
    pub where_root: Vec<char>,
    pub respect_ignore: bool,
    pub last_report: Option<Vec<char>>,
    pub runs: Vec<ReportRun>,
    pub next_report_id: u64,
}

impl View for FindFilesState {
    type V = FilesView;

    open spec fn view(&self) -> FilesView {
        FilesView {
            find_query: self.find_query@,
            replace_query: self.replace_query@,
            where_root: self.where_root@,
            respect_ignore: self.respect_ignore,
            last_report: opt_text_view(self.last_report),
            runs: run_views(self.runs@),
            next_report_id: self.next_report_id,
        }
    }
}

/// The registry never repeats a token or a root-and-query pair, and
/// every issued token is below the next fresh one.
pub open spec fn runs_wf(runs: Seq<RunView>, next: u64) -> bool {
    &&& forall|i: int| 0 <= i < runs.len() ==> (#[trigger] runs[i]).id < next
    &&& forall|i: int, j: int| 0 <= i < j < runs.len() ==> runs[i].id != runs[j].id
    &&& forall|i: int, j: int|
        0 <= i < j < runs.len() ==> !(runs[i].root == runs[j].root && runs[i].query
            == runs[j].query)
}

/// Run `i` of the registry matches the current root and query.
pub open spec fn pair_at(f: FilesView, i: int) -> bool {
    0 <= i < f.runs.len() && f.runs[i].root == f.where_root && f.runs[i].query == f.find_query
}

/// How the registry answers the report key for the current root and
/// query: the run recorded for the same pair keeps its key, so its
/// report is overwritten in place; a new pair is issued a fresh token,
/// never to be reused.
pub open spec fn keyed_run(f0: FilesView, f1: FilesView, key: KeyView) -> bool {
    &&& f1.find_query == f0.find_query
    &&& f1.replace_query == f0.replace_query
    &&& f1.where_root == f0.where_root
    &&& f1.respect_ignore == f0.respect_ignore
    &&& f1.last_report == f0.last_report
    &&& key is Report
    &&& if exists|i: int| pair_at(f0, i) {
        &&& f1.runs == f0.runs
        &&& f1.next_report_id == f0.next_report_id
        &&& exists|i: int| #[trigger] pair_at(f0, i) && key == KeyView::Report(f0.runs[i].id)
    } else {
        &&& key == KeyView::Report(f0.next_report_id)
        &&& f1.runs == f0.runs.push(
            RunView { root: f0.where_root, query: f0.find_query, id: f0.next_report_id },
        )
        &&& f1.next_report_id == f0.next_report_id + 1
    }
}

impl FindFilesState {
    /// The registry is well formed.
    pub open spec fn inv(&self) -> bool {
        runs_wf(run_views(self.runs@), self.next_report_id)
    }

    /// Looks up the recorded run for the current root and query.
    fn find_run(&self) -> (r: Option<usize>)
        ensures
            match r {
                Some(i) => pair_at(self@, i as int),
                None => forall|i: int| !pair_at(self@, i),
            },
    {
        let n = self.runs.len();
        let mut j: usize = 0;
        while j < n
            invariant
                j <= n,
                n == self.runs@.len(),
                forall|k: int| 0 <= k < j ==> !pair_at(self@, k),
            decreases n - j,
        {
            let root_hit = crate::key::text_eq(&self.runs[j].root, &self.where_root);
            let query_hit = crate::key::text_eq(&self.runs[j].query, &self.find_query);
            if root_hit && query_hit {
                proof {
                    assert(run_views(self.runs@)[j as int] == self.runs@[j as int]@);
                }
                return Some(j);
            }
            proof {
                assert(run_views(self.runs@)[j as int] == self.runs@[j as int]@);
            }
            j += 1;
        }
        None
    }

    /// The report key for the current root and query, recording a fresh
    /// run when the pair is new.
    fn report_key(&mut self) -> (r: DocKey)
        requires
            old(self).inv(),
            old(self).next_report_id < u64::MAX,
        ensures
            final(self).inv(),
            keyed_run(old(self)@, final(self)@, r@),
    {
        match self.find_run() {
            Some(i) => {
                let id = self.runs[i].id;
                proof {
                    assert(pair_at(old(self)@, i as int));
                    assert(old(self)@.runs[i as int].id == id);
                }
                DocKey::Report(id)
            },
            None => {
                let id = self.next_report_id;
                self.runs.push(
                    ReportRun {
                        root: copy_text(&self.where_root),
                        query: copy_text(&self.find_query),
                        id,
                    },
                );
                self.next_report_id = id + 1;
                proof {
                    let r0 = old(self)@.runs;
                    let r1 = run_views(self.runs@);
                    assert(r1 =~= r0.push(
                        RunView {
                            root: old(self)@.where_root,
                            query: old(self)@.find_query,
                            id,
                        },
                    ));
                    assert forall|a: int| 0 <= a < r1.len() implies (#[trigger] r1[a]).id
                        < self.next_report_id by {
                        if a < r0.len() {
                            assert(r1[a] == r0[a]);
                        }
                    }
                    assert forall|a: int, b: int| 0 <= a < b < r1.len() implies r1[a].id
                        != r1[b].id by {
                        if b == r1.len() - 1 {
                            assert(r1[a] == r0[a]);
                        }
                    }
                    assert forall|a: int, b: int| 0 <= a < b < r1.len() implies !(r1[a].root
                        == r1[b].root && r1[a].query == r1[b].query) by {
                        if b == r1.len() - 1 {
                            assert(r1[a] == r0[a]);
                            assert(!pair_at(old(self)@, a));
                        }
                    }
                }
                DocKey::Report(id)
            },
        }
    }
}

/// One pending disk write: the file's path and the full text to write
/// verbatim, with no formatting or normalisation.
pub struct SaveJob {
    pub path: Vec<char>,
    pub text: Vec<char>,
}

/// The ghost value of a pending disk write.
#[verifier::ext_equal]
pub struct JobView {
    pub path: Seq<char>,
    pub text: Seq<char>,
}

impl View for SaveJob {
    type V = JobView;

    open spec fn view(&self) -> JobView {
        JobView { path: self.path@, text: self.text@ }
    }
}

/// The ghost value of an optional pending write.
pub open spec fn job_view(o: Option<SaveJob>) -> Option<JobView> {
    match o {
        Some(j) => Some(j@),
        None => None,
    }
}

/// The disk write that saving `key` performs: a real file's path with
/// its current text; a synthetic report is never written to disk, and a
/// key without content has nothing to write.
pub open spec fn save_job_for(s: SessionView, key: KeyView) -> Option<JobView> {
    match key {
        KeyView::Real(p) => if s.contents.contains_key(key) {
            Some(JobView { path: p, text: s.contents[key] })
        } else {
            None
        },
        KeyView::Report(_) => None,
    }
}

/// The text of the active document, or nothing at all when no tab is
/// open.
pub open spec fn active_content(s: SessionView) -> Seq<char> {
    match s.active {
        Some(i) => if 0 <= i < s.docs.len() && s.contents.contains_key(s.docs[i]) {
            s.contents[s.docs[i]]
        } else {
            Seq::empty()
        },
        None => Seq::empty(),
    }
}

/// Every report token among the open tabs is below the next fresh one,
/// so a fresh token can never collide with an open tab.
pub open spec fn fresh_report_ids(docs: Seq<KeyView>, next: u64) -> bool {
    forall|i: int|
        0 <= i < docs.len() ==> match #[trigger] docs[i] {
            KeyView::Report(id) => id < next,
            KeyView::Real(_) => true,
        }
}

/// The caller's decision on a close left pending by a dirty document.
pub enum CloseDecision {
    Save,
    Discard,
    Cancel,
}

/// The offset just past the last path separator of `p` at or before
/// offset `i`, or `-1` when none remains.
pub open spec fn last_sep(p: Seq<char>, i: int) -> int
    decreases i + 1,
{
    if i < 0 {
        -1
    } else if 0 <= i < p.len() && p[i] == '/' {
        i
    } else {
        last_sep(p, i - 1)
    }
}

/// The directory part of a path: everything before its last separator,
/// or nothing for a bare name. Paths are modelled with `/` separating
/// their components.
pub open spec fn parent_of(p: Seq<char>) -> Option<Seq<char>> {
    let k = last_sep(p, p.len() - 1);
    if k < 0 {
        None
    } else {
        Some(p.subrange(0, k))
    }
}

/// The ghost state of the whole editing session.
#[verifier::ext_equal]
pub struct AppView {
    pub root_dir: Option<Seq<char>>,
    pub session: SessionView,
    pub find: FindView,
    pub files: FilesView,
}

/// The editing session core: the session store, the in-buffer find
/// engine, the find-in-files engine, and the root directory that
/// cross-file operations search.
pub struct SublimeRustApp {
    pub root_dir: Option<Vec<char>>,
    pub session: Session,
    pub find: FindState,
    pub files: FindFilesState,
}

impl View for SublimeRustApp {
    type V = AppView;

    open spec fn view(&self) -> AppView {
        AppView {
            root_dir: opt_text_view(self.root_dir),
            session: self.session@,
            find: self.find@,
            files: self.files@,
        }
    }
}

impl SublimeRustApp {
    /// Every component is well formed, and no open report tab could
    /// collide with a token still to be issued.
    pub open spec fn inv(&self) -> bool {
        &&& self.session.inv()
        &&& self.find.inv()
        &&& self.files.inv()
        &&& fresh_report_ids(self@.session.docs, self@.files.next_report_id)
    }
}

impl Default for SublimeRustApp {
    /// An empty editing session: no root, no documents, no queries, no
    /// report run recorded yet; ignore rules are respected by default.
    fn default() -> (r: SublimeRustApp)
        ensures
            r.inv(),
            r@ == (AppView {
                root_dir: None,
                session: SessionView {
                    docs: Seq::empty(),
                    contents: Map::empty(),
                    dirty: Set::empty(),
                    active: None,
                    pending: None,
                },
                find: FindView { query: Seq::empty(), matches: Seq::empty(), cursor: None },
                files: FilesView {
                    find_query: Seq::empty(),
                    replace_query: Seq::empty(),
                    where_root: Seq::empty(),
                    respect_ignore: true,
                    last_report: None,
                    runs: Seq::empty(),
                    next_report_id: 0,
                },
            }),
    {
        let r = SublimeRustApp {
            root_dir: None,
            session: Session::new(),
            find: FindState::new(),
            files: FindFilesState {
                find_query: Vec::new(),
                replace_query: Vec::new(),
                where_root: Vec::new(),
                respect_ignore: true,
                last_report: None,
                runs: Vec::new(),
                next_report_id: 0,
            },
        };
        proof {
            assert(run_views(r.files.runs@) =~= Seq::<RunView>::empty());
            assert(r@ =~= (AppView {
                root_dir: None,
                session: SessionView {
                    docs: Seq::empty(),
                    contents: Map::empty(),
                    dirty: Set::empty(),
                    active: None,
                    pending: None,
                },
                find: FindView { query: Seq::empty(), matches: Seq::empty(), cursor: None },
                files: FilesView {
                    find_query: Seq::empty(),
                    replace_query: Seq::empty(),
                    where_root: Seq::empty(),
                    respect_ignore: true,
                    last_report: None,
                    runs: Seq::empty(),
                    next_report_id: 0,
                },
            }));
        }
        r
    }
}

/// Finds the last path separator of `p`, scanning from the end.
fn find_last_sep(p: &Vec<char>) -> (r: Option<usize>)
    ensures
        match r {
            Some(k) => k < p@.len() && k as int == last_sep(p@, p@.len() - 1),
            None => last_sep(p@, p@.len() - 1) == -1,
        },
{
    let mut i: usize = p.len();
    while i > 0
        invariant
            i <= p@.len(),
            p@.len() <= usize::MAX,
            last_sep(p@, p@.len() - 1) == last_sep(p@, i as int - 1),
        decreases i,
    {
        if p[i - 1] == '/' {
            assert(last_sep(p@, i as int - 1) == i - 1);
            return Some(i - 1);
        }
        i -= 1;
    }
    None
}

/// The directory part of `path`, when it has one.
fn parent_dir(path: &Vec<char>) -> (r: Option<Vec<char>>)
    ensures
        opt_text_view(r) == parent_of(path@),
{
    match find_last_sep(path) {
        Some(k) => Some(crate::text::copy_range(path, 0, k)),
        None => None,
    }
}

impl SublimeRustApp {
    /// Locates every occurrence of the find query in the active
    /// document, renumbering the match cursor; everything else stays.
    pub fn perform_find(&mut self)
        requires
            old(self).inv(),
        ensures
            final(self).inv(),
            final(self)@ == (AppView {
                find: recompute_spec(old(self)@.find, active_content(old(self)@.session)),
                ..old(self)@
            }),
    {
        match self.session.active_index {
            Some(idx) => {
                let key = &self.session.docs[idx];
                match self.session.contents.get(key) {
                    Some(text) => {
                        proof {
                            assert(old(self)@.session.docs[idx as int] == old(
                                self,
                            ).session.docs@[idx as int]@);
                            assert(active_content(old(self)@.session) == text@);
                        }
                        self.find.recompute(text);
                    },
                    None => {
                        proof {
                            assert(old(self)@.session.contents.contains_key(
                                old(self)@.session.docs[idx as int],
                            ));
                            assert(false);
                        }
                    },
                }
            },
            None => {
                let empty: Vec<char> = Vec::new();
                proof {
                    assert(active_content(old(self)@.session) =~= Seq::<char>::empty());
                }
                self.find.recompute(&empty);
            },
        }
        proof {
            assert(final(self)@ =~= (AppView {
                find: recompute_spec(old(self)@.find, active_content(old(self)@.session)),
                ..old(self)@
            }));
        }
    }

    /// Adopts the folder chosen by the picker as the root directory; a
    /// cancelled picker changes nothing.
    pub fn open_folder(&mut self, chosen: Option<Vec<char>>)
        requires
            old(self).inv(),
        ensures
            final(self).inv(),
            final(self)@ == (AppView {
                root_dir: match chosen {
                    Some(p) => Some(p@),
                    None => old(self)@.root_dir,
                },
                ..old(self)@
            }),
    {
        match chosen {
            Some(p) => {
                self.root_dir = Some(p);
            },
            None => {},
        }
        proof {
            assert(final(self)@ =~= (AppView {
                root_dir: match chosen {
                    Some(p) => Some(p@),
                    None => old(self)@.root_dir,
                },
                ..old(self)@
            }));
        }
    }

    /// Opens the file the picker chose, with the text read for it. With
    /// no root directory set yet, the chosen path's parent becomes the
    /// root. An already open path only has its tab activated; a fresh
    /// one is appended with the loaded text; a failed read reports the
    /// load failure and leaves the documents unchanged. A cancelled
    /// picker changes nothing at all and is no error.
    pub fn open_file(&mut self, chosen: Option<Vec<char>>, loaded: Option<Vec<char>>) -> (r:
        Result<(), LoadError>)
        requires
            old(self).inv(),
        ensures
            final(self).inv(),
            ({
                let a0 = old(self)@;
                let a1 = final(self)@;
                match chosen {
                    None => r is Ok && a1 == a0,
                    Some(p) => {
                        &&& a1.root_dir == (if a0.root_dir is None {
                            parent_of(p@)
                        } else {
                            a0.root_dir
                        })
                        &&& a1.find == a0.find
                        &&& a1.files == a0.files
                        &&& opened(
                            a0.session,
                            a1.session,
                            KeyView::Real(p@),
                            opt_text_view(loaded),
                            r is Ok,
                        )
                    },
                }
            }),
    {
        let path = match chosen {
            Some(p) => p,
            None => {
                proof {
                    assert(final(self)@ =~= old(self)@);
                }
                return Ok(());
            },
        };
        if self.root_dir.is_none() {
            self.root_dir = parent_dir(&path);
        }
        let r = self.session.insert_or_activate(DocKey::Real(path), loaded);
        proof {
            let a1 = final(self)@;
            assert forall|i: int| 0 <= i < a1.session.docs.len() implies match #[trigger] a1.session.docs[i] {
                KeyView::Report(id) => id < a1.files.next_report_id,
                KeyView::Real(_) => true,
            } by {
                if i < old(self)@.session.docs.len() {
                    assert(a1.session.docs[i] == old(self)@.session.docs[i]);
                }
            }
        }
        r
    }

    /// Adopts `text` as the active document's content after an edit: the
    /// cache is updated, a real file is marked dirty (a report never
    /// is), and the in-buffer search is recomputed over the new text.
    /// With no active document nothing changes.
    pub fn set_active_content(&mut self, text: Vec<char>)
        requires
            old(self).inv(),
        ensures
            final(self).inv(),
            ({
                let a0 = old(self)@;
                let a1 = final(self)@;
                match a0.session.active {
                    None => a1 == a0,
                    Some(i) => {
                        let key = a0.session.docs[i];
                        &&& a1.session == (SessionView {
                            contents: a0.session.contents.insert(key, text@),
                            dirty: if key is Real {
                                a0.session.dirty.insert(key)
                            } else {
                                a0.session.dirty
                            },
                            ..a0.session
                        })
                        &&& a1.find == recompute_spec(a0.find, text@)
                        &&& a1.root_dir == a0.root_dir
                        &&& a1.files == a0.files
                    },
                }
            }),
    {
        let idx = match self.session.active_index {
            Some(i) => i,
            None => {
                proof {
                    assert(final(self)@ =~= old(self)@);
                }
                return ;
            },
        };
        let key = self.session.docs[idx].dup();
        proof {
            assert(old(self)@.session.docs[idx as int] == old(self).session.docs@[idx as int]@);
            assert(old(self)@.session.docs.contains(key@));
        }
        self.find.recompute(&text);
        self.session.contents.put(key.dup(), text);
        proof {
            let s1 = self.session@;
            let s0 = old(self)@.session;
            assert(s1.docs == s0.docs);
            assert forall|i: int| 0 <= i < s1.docs.len() implies s1.contents.contains_key(
                #[trigger] s1.docs[i],
            ) by {
                assert(s0.contents.contains_key(s0.docs[i]));
            }
            assert(self.session.inv());
        }
        self.session.mark_dirty(&key);
        proof {
            let a0 = old(self)@;
            let i = a0.session.active->0;
            assert(a0.session.docs.contains(a0.session.docs[i]));
            assert(final(self)@.session =~= (SessionView {
                contents: a0.session.contents.insert(a0.session.docs[i], text@),
                dirty: if a0.session.docs[i] is Real {
                    a0.session.dirty.insert(a0.session.docs[i])
                } else {
                    a0.session.dirty
                },
                ..a0.session
            }));
        }
    }
}

impl SublimeRustApp {
    /// The disk write that saving the document `key` calls for: its path
    /// and current text, verbatim. A report, or a key without content,
    /// yields no write; the dirty flag clears only when the caller
    /// reports the write's success.
    pub fn save_file(&self, key: &DocKey) -> (r: Option<SaveJob>)
        requires
            self.inv(),
        ensures
            job_view(r) == save_job_for(self@.session, key@),
    {
        match key {
            DocKey::Real(p) => {
                match self.session.contents.get(key) {
                    Some(t) => Some(SaveJob { path: copy_text(p), text: copy_text(t) }),
                    None => None,
                }
            },
            DocKey::Report(_) => None,
        }
    }

    /// The disk write that saving the active document calls for, if any
    /// tab is active.
    pub fn save_active_file(&self) -> (r: Option<SaveJob>)
        requires
            self.inv(),
        ensures
            ({
                let s = self@.session;
                match s.active {
                    None => r is None,
                    Some(i) => job_view(r) == save_job_for(s, s.docs[i]),
                }
            }),
    {
        match self.session.active_index {
            Some(idx) => {
                let key = self.session.docs[idx].dup();
                proof {
                    assert(self@.session.docs[idx as int] == self.session.docs@[idx as int]@);
                }
                self.save_file(&key)
            },
            None => None,
        }
    }

    /// The disk write that saving the active document under `new_path`
    /// calls for: the new path with the active document's current text.
    /// A report tab or an empty session yields no write.
    pub fn save_as_active_file(&self, new_path: &Vec<char>) -> (r: Option<SaveJob>)
        requires
            self.inv(),
        ensures
            ({
                let s = self@.session;
                match s.active {
                    None => r is None,
                    Some(i) => match s.docs[i] {
                        KeyView::Real(_) => if s.contents.contains_key(s.docs[i]) {
                            job_view(r) == Some(
                                JobView { path: new_path@, text: s.contents[s.docs[i]] },
                            )
                        } else {
                            r is None
                        },
                        KeyView::Report(_) => r is None,
                    },
                }
            }),
    {
        match self.session.active_index {
            Some(idx) => {
                let key = self.session.docs[idx].dup();
                proof {
                    assert(self@.session.docs[idx as int] == self.session.docs@[idx as int]@);
                }
                match &key {
                    DocKey::Real(_) => {
                        match self.session.contents.get(&key) {
                            Some(t) => Some(
                                SaveJob { path: copy_text(new_path), text: copy_text(t) },
                            ),
                            None => None,
                        }
                    },
                    DocKey::Report(_) => None,
                }
            },
            None => None,
        }
    }

    /// Records the outcome of a save: a successful write clears the
    /// key's dirty flag; a failed one leaves it set, so the save can be
    /// retried, and the document's text stays as it was in memory.
    pub fn apply_save_result(&mut self, key: &DocKey, ok: bool)
        requires
            old(self).inv(),
        ensures
            final(self).inv(),
            final(self)@ == (AppView {
                session: (SessionView {
                    dirty: if ok {
                        old(self)@.session.dirty.remove(key@)
                    } else {
                        old(self)@.session.dirty
                    },
                    ..old(self)@.session
                }),
                ..old(self)@
            }),
    {
        if ok {
            self.session.clear_dirty(key);
        }
        proof {
            assert(final(self)@ =~= (AppView {
                session: (SessionView {
                    dirty: if ok {
                        old(self)@.session.dirty.remove(key@)
                    } else {
                        old(self)@.session.dirty
                    },
                    ..old(self)@.session
                }),
                ..old(self)@
            }));
        }
    }

    /// Renames the active document to `new_path` after its text reached
    /// the new file: the tab keeps its place and loses its dirty flag,
    /// and the old key's cache entry moves to the new key. Refused when
    /// nothing is active, the active tab is a report, or another tab
    /// already holds the new path.
    pub fn apply_save_as(&mut self, new_path: Vec<char>) -> (r: bool)
        requires
            old(self).inv(),
        ensures
            final(self).inv(),
            ({
                let a0 = old(self)@;
                let a1 = final(self)@;
                &&& a1.root_dir == a0.root_dir
                &&& a1.find == a0.find
                &&& a1.files == a0.files
                &&& match a0.session.active {
                    None => !r && a1.session == a0.session,
                    Some(i) => {
                        let okey = a0.session.docs[i];
                        let nkey = KeyView::Real(new_path@);
                        if !(okey is Real) {
                            !r && a1.session == a0.session
                        } else if exists|j: int|
                            0 <= j < a0.session.docs.len() && j != i && a0.session.docs[j]
                                == nkey {
                            !r && a1.session == a0.session
                        } else {
                            &&& r
                            &&& a1.session == (SessionView {
                                docs: a0.session.docs.update(i, nkey),
                                contents: a0.session.contents.remove(okey).insert(
                                    nkey,
                                    a0.session.contents[okey],
                                ),
                                dirty: a0.session.dirty.remove(okey),
                                ..a0.session
                            })
                        }
                    },
                }
            }),
    {
        let idx = match self.session.active_index {
            Some(i) => i,
            None => {
                proof {
                    assert(final(self)@ =~= old(self)@);
                }
                return false;
            },
        };
        proof {
            assert(old(self)@.session.docs[idx as int] == old(self).session.docs@[idx as int]@);
        }
        match &self.session.docs[idx] {
            DocKey::Report(_) => {
                proof {
                    assert(final(self)@ =~= old(self)@);
                }
                return false;
            },
            DocKey::Real(_) => {},
        }
        let r = self.session.rename_document(idx, DocKey::Real(new_path));
        proof {
            let a1 = final(self)@;
            assert forall|i: int|
                0 <= i < a1.session.docs.len() implies match #[trigger] a1.session.docs[i] {
                KeyView::Report(id) => id < a1.files.next_report_id,
                KeyView::Real(_) => true,
            } by {
                if i != idx {
                    assert(a1.session.docs[i] == old(self)@.session.docs[i]);
                }
            }
        }
        r
    }

    /// The disk writes that saving every dirty document calls for, one
    /// per dirty key, each independent so that one failure cannot block
    /// the others.
    pub fn save_all_files(&self) -> (r: Vec<SaveJob>)
        requires
            self.inv(),
        ensures
            forall|i: int|
                0 <= i < r@.len() ==> Some(#[trigger] r@[i]@) == save_job_for(
                    self@.session,
                    KeyView::Real(r@[i]@.path),
                ) && self@.session.dirty.contains(KeyView::Real(r@[i]@.path)),
            forall|k: KeyView|
                self@.session.dirty.contains(k) ==> exists|i: int|
                    0 <= i < r@.len() && k == KeyView::Real(#[trigger] r@[i]@.path),
            forall|i: int, j: int| 0 <= i < j < r@.len() ==> r@[i]@.path != r@[j]@.path,
    {
        let keys = self.session.dirty.to_keys();
        let n = keys.len();
        let mut out: Vec<SaveJob> = Vec::new();
        let mut j: usize = 0;
        while j < n
            invariant
                j <= n,
                n == keys@.len(),
                self.inv(),
                out@.len() == j,
                forall|m: int|
                    0 <= m < keys@.len() ==> self@.session.dirty.contains(#[trigger] keys@[m]@),
                forall|k: KeyView|
                    self@.session.dirty.contains(k) ==> exists|m: int|
                        0 <= m < keys@.len() && #[trigger] keys@[m]@ == k,
                forall|a: int, b: int| 0 <= a < b < keys@.len() ==> keys@[a]@ != keys@[b]@,
                forall|m: int|
                    0 <= m < j ==> keys@[m]@ == KeyView::Real(#[trigger] out@[m]@.path) && Some(
                        out@[m]@,
                    ) == save_job_for(self@.session, keys@[m]@),
            decreases n - j,
        {
            proof {
                assert(self@.session.dirty.contains(keys@[j as int]@));
                assert(self@.session.docs.contains(keys@[j as int]@));
                let w = choose|w: int|
                    0 <= w < self@.session.docs.len() && self@.session.docs[w] == keys@[j as int]@;
                assert(self@.session.contents.contains_key(self@.session.docs[w]));
            }
            match &keys[j] {
                DocKey::Real(p) => {
                    match self.session.contents.get(&keys[j]) {
                        Some(t) => {
                            out.push(SaveJob { path: copy_text(p), text: copy_text(t) });
                        },
                        None => {
                            proof {
                                assert(false);
                            }
                        },
                    }
                },
                DocKey::Report(_) => {
                    proof {
                        assert(keys@[j as int]@ is Real);
                        assert(false);
                    }
                },
            }
            j += 1;
        }
        proof {
            assert forall|k: KeyView| self@.session.dirty.contains(k) implies exists|i: int|
                0 <= i < out@.len() && k == KeyView::Real(#[trigger] out@[i]@.path) by {
                let m = choose|m: int| 0 <= m < keys@.len() && #[trigger] keys@[m]@ == k;
                assert(keys@[m]@ == KeyView::Real(out@[m]@.path));
            }
            assert forall|a: int, b: int| 0 <= a < b < out@.len() implies out@[a]@.path
                != out@[b]@.path by {
                assert(keys@[a]@ != keys@[b]@);
                assert(keys@[a]@ == KeyView::Real(out@[a]@.path));
                assert(keys@[b]@ == KeyView::Real(out@[b]@.path));
            }
        }
        out
    }

    /// Requests closing the tab at `index`: a dirty document is not
    /// removed but left awaiting a save, discard or cancel decision; a
    /// clean one closes at once, with the indices renumbered.
    pub fn close_tab(&mut self, index: usize)
        requires
            old(self).inv(),
            index < old(self)@.session.docs.len(),
        ensures
            final(self).inv(),
            ({
                let a0 = old(self)@;
                let a1 = final(self)@;
                let s0 = a0.session;
                let key = s0.docs[index as int];
                &&& a1.root_dir == a0.root_dir
                &&& a1.find == a0.find
                &&& a1.files == a0.files
                &&& if s0.dirty.contains(key) {
                    a1.session == (SessionView { pending: Some(index as int), ..s0 })
                } else {
                    a1.session == (SessionView {
                        docs: s0.docs.remove(index as int),
                        contents: s0.contents,
                        dirty: s0.dirty.remove(key),
                        active: active_after_remove(s0.active, index as int, s0.docs.len() as int),
                        pending: pending_after_remove(s0.pending, index as int),
                    })
                }
            }),
    {
        let key = self.session.docs[index].dup();
        proof {
            assert(old(self)@.session.docs[index as int] == old(self).session.docs@[index as int]@);
        }
        if self.session.dirty.contains(&key) {
            self.session.pending_close = Some(index);
            proof {
                assert(final(self)@.session =~= (SessionView {
                    pending: Some(index as int),
                    ..old(self)@.session
                }));
            }
        } else {
            self.session.remove(index);
            proof {
                let a1 = final(self)@;
                assert forall|i: int|
                    0 <= i < a1.session.docs.len() implies match #[trigger] a1.session.docs[i] {
                    KeyView::Report(id) => id < a1.files.next_report_id,
                    KeyView::Real(_) => true,
                } by {
                    old(self)@.session.docs.remove_ensures(index as int);
                    if i < index {
                        assert(a1.session.docs[i] == old(self)@.session.docs[i]);
                    } else {
                        assert(a1.session.docs[i] == old(self)@.session.docs[i + 1]);
                    }
                }
            }
        }
    }

    /// Settles the pending close: `Save` hands back the write to perform
    /// and closes the tab, `Discard` closes it without saving, and
    /// `Cancel` keeps the tab open, dirty as it was. With nothing
    /// pending, nothing happens.
    pub fn resolve_pending(&mut self, decision: CloseDecision) -> (r: Option<SaveJob>)
        requires
            old(self).inv(),
        ensures
            final(self).inv(),
            ({
                let a0 = old(self)@;
                let a1 = final(self)@;
                let s0 = a0.session;
                &&& a1.root_dir == a0.root_dir
                &&& a1.find == a0.find
                &&& a1.files == a0.files
                &&& match s0.pending {
                    None => a1 == a0 && r is None,
                    Some(i) => {
                        let key = s0.docs[i];
                        let closed = SessionView {
                            docs: s0.docs.remove(i),
                            contents: s0.contents,
                            dirty: s0.dirty.remove(key),
                            active: active_after_remove(s0.active, i, s0.docs.len() as int),
                            pending: None,
                        };
                        match decision {
                            CloseDecision::Cancel => r is None && a1.session == (SessionView {
                                pending: None,
                                ..s0
                            }),
                            CloseDecision::Discard => r is None && a1.session == closed,
                            CloseDecision::Save => job_view(r) == save_job_for(s0, key)
                                && a1.session == closed,
                        }
                    },
                }
            }),
    {
        let idx = match self.session.pending_close {
            Some(i) => i,
            None => {
                proof {
                    assert(final(self)@ =~= old(self)@);
                }
                return None;
            },
        };
        let job = match decision {
            CloseDecision::Cancel => {
                self.session.pending_close = None;
                proof {
                    assert(final(self)@.session =~= (SessionView {
                        pending: None,
                        ..old(self)@.session
                    }));
                }
                return None;
            },
            CloseDecision::Discard => None,
            CloseDecision::Save => {
                let key = self.session.docs[idx].dup();
                proof {
                    assert(old(self)@.session.docs[idx as int] == old(
                        self,
                    ).session.docs@[idx as int]@);
                }
                self.save_file(&key)
            },
        };
        self.session.remove(idx);
        proof {
            let a1 = final(self)@;
            assert(pending_after_remove(old(self)@.session.pending, idx as int) == None::<int>);
            assert forall|i: int|
                0 <= i < a1.session.docs.len() implies match #[trigger] a1.session.docs[i] {
                KeyView::Report(id) => id < a1.files.next_report_id,
                KeyView::Real(_) => true,
            } by {
                old(self)@.session.docs.remove_ensures(idx as int);
                if i < idx {
                    assert(a1.session.docs[i] == old(self)@.session.docs[i]);
                } else {
                    assert(a1.session.docs[i] == old(self)@.session.docs[i + 1]);
                }
            }
        }
        job
    }
}

impl SublimeRustApp {
    /// Adopts a new in-buffer query and recomputes the matches over the
    /// active document at once, as every edit of the query must.
    pub fn set_find_query(&mut self, query: Vec<char>)
        requires
            old(self).inv(),
        ensures
            final(self).inv(),
            final(self)@ == (AppView {
                find: recompute_spec(
                    (FindView { query: query@, ..old(self)@.find }),
                    active_content(old(self)@.session),
                ),
                ..old(self)@
            }),
    {
        self.find.query = query;
        match self.session.active_index {
            Some(idx) => {
                let key = &self.session.docs[idx];
                match self.session.contents.get(key) {
                    Some(text) => {
                        proof {
                            assert(old(self)@.session.docs[idx as int] == old(
                                self,
                            ).session.docs@[idx as int]@);
                            assert(active_content(old(self)@.session) == text@);
                        }
                        self.find.recompute(text);
                    },
                    None => {
                        proof {
                            assert(old(self)@.session.contents.contains_key(
                                old(self)@.session.docs[idx as int],
                            ));
                            assert(false);
                        }
                    },
                }
            },
            None => {
                let empty: Vec<char> = Vec::new();
                proof {
                    assert(active_content(old(self)@.session) =~= Seq::<char>::empty());
                }
                self.find.recompute(&empty);
            },
        }
        proof {
            assert(final(self)@ =~= (AppView {
                find: recompute_spec(
                    (FindView { query: query@, ..old(self)@.find }),
                    active_content(old(self)@.session),
                ),
                ..old(self)@
            }));
        }
    }

    /// Runs find-in-files over the files that traversing the current
    /// root produced. An empty query only clears the previous report.
    /// Otherwise the report text is built from the files, shown under
    /// the run's report key — fresh for a new root-and-query pair,
    /// reused to overwrite the previous report of the same pair — and
    /// the report tab is activated.
    pub fn perform_find_in_files(&mut self, files: &Vec<FileEntry>)
        requires
            old(self).inv(),
            old(self)@.files.next_report_id < u64::MAX,
        ensures
            final(self).inv(),
            ({
                let a0 = old(self)@;
                let a1 = final(self)@;
                &&& a1.root_dir == a0.root_dir
                &&& a1.find == a0.find
                &&& if a0.files.find_query.len() == 0 {
                    a1.session == a0.session && a1.files == (FilesView {
                        last_report: None,
                        ..a0.files
                    })
                } else {
                    let report = report_text(files_view(files@), a0.files.find_query);
                    &&& a1.files.last_report == Some(report)
                    &&& exists|key: KeyView|
                        #[trigger] keyed_run(
                            a0.files,
                            (FilesView { last_report: a0.files.last_report, ..a1.files }),
                            key,
                        ) && shown(a0.session, a1.session, key, report)
                }
            }),
    {
        if self.files.find_query.len() == 0 {
            self.files.last_report = None;
            proof {
                assert(final(self)@.files =~= (FilesView {
                    last_report: None,
                    ..old(self)@.files
                }));
            }
            return ;
        }
        let report = search_report(files, &self.files.find_query);
        let key = self.files.report_key();
        let ghost kv = key@;
        let ghost fmid = self.files@;
        self.session.show_document(key, copy_text(&report));
        self.files.last_report = Some(report);
        proof {
            let a0 = old(self)@;
            let a1 = final(self)@;
            assert((FilesView { last_report: a0.files.last_report, ..a1.files }) =~= fmid);
            assert(keyed_run(a0.files, (FilesView { last_report: a0.files.last_report, ..a1.files }), kv));
            assert(shown(
                a0.session,
                a1.session,
                kv,
                report_text(files_view(files@), a0.files.find_query),
            ));
            // the shown report key is below every token still to be issued
            assert(kv is Report);
            let id = choose|id: u64| kv == KeyView::Report(id);
            if exists|i: int| pair_at(a0.files, i) {
                let i = choose|i: int| #[trigger] pair_at(a0.files, i) && kv == KeyView::Report(
                    a0.files.runs[i].id,
                );
                assert(a0.files.runs[i].id < a0.files.next_report_id);
            }
            assert forall|i: int|
                0 <= i < a1.session.docs.len() implies match #[trigger] a1.session.docs[i] {
                KeyView::Report(id2) => id2 < a1.files.next_report_id,
                KeyView::Real(_) => true,
            } by {
                if a0.session.docs.contains(kv) {
                    assert(a1.session.docs[i] == a0.session.docs[i]);
                    assert(a0.files.next_report_id <= a1.files.next_report_id);
                } else {
                    if i < a0.session.docs.len() {
                        assert(a1.session.docs[i] == a0.session.docs[i]);
                        assert(a0.files.next_report_id <= a1.files.next_report_id);
                    } else {
                        assert(a1.session.docs[i] == kv);
                    }
                }
            }
        }
    }

    /// The rewrites that replacing the find query with the replace query
    /// performs over the traversed files: one rewritten text per file
    /// that contains the query, left alone otherwise. An empty query
    /// rewrites nothing.
    pub fn replacement_jobs(&self, files: &Vec<FileEntry>) -> (r: Vec<FileEntry>)
        requires
            self.inv(),
        ensures
            ({
                let q = self@.files.find_query;
                if q.len() == 0 {
                    r@.len() == 0
                } else {
                    files_view(r@) == replace_jobs_view(
                        files_view(files@),
                        q,
                        self@.files.replace_query,
                        0,
                    )
                }
            }),
    {
        if self.files.find_query.len() == 0 {
            return Vec::new();
        }
        replace_in_files(files, &self.files.find_query, &self.files.replace_query)
    }

    /// Adopts the text re-read from disk after a replace rewrote the
    /// file at `path`: the cache entry of that path is refreshed, open
    /// tab or not, while the dirty flags stay as they were — the text
    /// now matches the disk, so nothing new is unsaved. A path never
    /// seen is left alone.
    pub fn refresh_disk_content(&mut self, path: &Vec<char>, text: Vec<char>)
        requires
            old(self).inv(),
        ensures
            final(self).inv(),
            final(self)@ == (AppView {
                session: (SessionView {
                    contents: if old(self)@.session.contents.contains_key(KeyView::Real(path@)) {
                        old(self)@.session.contents.insert(KeyView::Real(path@), text@)
                    } else {
                        old(self)@.session.contents
                    },
                    ..old(self)@.session
                }),
                ..old(self)@
            }),
    {
        let key = DocKey::Real(copy_text(path));
        let present = self.session.contents.get(&key).is_some();
        if present {
            self.session.contents.put(key, text);
            proof {
                let s0 = old(self)@.session;
                let s1 = self.session@;
                assert forall|i: int| 0 <= i < s1.docs.len() implies s1.contents.contains_key(
                    #[trigger] s1.docs[i],
                ) by {
                    assert(s0.contents.contains_key(s0.docs[i]));
                }
            }
        }
        proof {
            assert(final(self)@ =~= (AppView {
                session: (SessionView {
                    contents: if old(self)@.session.contents.contains_key(KeyView::Real(path@)) {
                        old(self)@.session.contents.insert(KeyView::Real(path@), text@)
                    } else {
                        old(self)@.session.contents
                    },
                    ..old(self)@.session
                }),
                ..old(self)@
            }));
        }
    }
}

impl SublimeRustApp {
    /// The half-open character range of the match under the cursor, for
    /// the caller to highlight and scroll to: it starts at the match and
    /// spans the query.
    pub fn move_to_match(&self) -> (r: Option<(usize, usize)>)
        requires
            self.inv(),
        ensures
            match r {
                Some(p) => self@.find.cursor is Some && p.0 == self@.find.matches[self@.find.cursor->0]
                    && p.1 == p.0 + self@.find.query.len(),
                None => self@.find.cursor is None,
            },
    {
        self.find.current_match_range()
    }
}

} // verus!
