use vstd::prelude::*;
use vstd::pervasive::VecAdditionalExecFns;

use crate::key::{copy_text, position_of, DocKey, KeyView};
use crate::table::{ContentTable, KeySet};

verus! {

/// A document failed to load: the file was unreadable or not valid text.
pub struct LoadError;

/// The mathematical state of a session store.
#[verifier::ext_equal]
pub struct SessionView {
    /// The open documents in tab order.
    pub docs: Seq<KeyView>,
    /// The text last loaded or stored for each document ever seen.
    pub contents: Map<KeyView, Seq<char>>,
    /// The open real files whose text differs from their saved state.
    pub dirty: Set<KeyView>,
    /// The tab that currently has the focus.
    pub active: Option<int>,
    /// The tab whose close awaits a save, discard or cancel decision.
    pub pending: Option<int>,
}

impl SessionView {
    /// The invariants of a well-formed session: tab keys are unique, every
    /// open document has content, only open real files are dirty, a tab is
    /// active exactly when one exists, and recorded indices are in range.
    pub open spec fn wf(self) -> bool {
        &&& forall|i: int, j: int| 0 <= i < j < self.docs.len() ==> self.docs[i] != self.docs[j]
        &&& forall|i: int|
            0 <= i < self.docs.len() ==> self.contents.contains_key(#[trigger] self.docs[i])
        &&& forall|k: KeyView| self.dirty.contains(k) ==> self.docs.contains(k) && k is Real
        &&& (self.active is None <==> self.docs.len() == 0)
        &&& (self.active is Some ==> 0 <= self.active->0 < self.docs.len())
        &&& (self.pending is Some ==> 0 <= self.pending->0 < self.docs.len())
    }
}

/// The ghost value of an optional index.
pub open spec fn index_view(o: Option<usize>) -> Option<int> {
    match o {
        Some(i) => Some(i as int),
        None => None,
    }
}

/// The identities of an ordered list of document keys.
pub open spec fn key_views(s: Seq<DocKey>) -> Seq<KeyView> {
    s.map_values(|k: DocKey| k@)
}

/// The session store: the ordered open documents, their text cache, the
/// dirty set, the active tab, and at most one close awaiting a decision.
pub struct Session {
    pub docs: Vec<DocKey>,
    pub contents: ContentTable,
    pub dirty: KeySet,
    pub active_index: Option<usize>,
    pub pending_close: Option<usize>,
}

impl View for Session {
    type V = SessionView;

    open spec fn view(&self) -> SessionView {
        SessionView {
            docs: key_views(self.docs@),
            contents: self.contents@,
            dirty: self.dirty@,
            active: index_view(self.active_index),
            pending: index_view(self.pending_close),
        }
    }
}

/// The active index after the tab at `i` closes, out of `old_len` tabs:
/// with no active tab there is nothing to renumber; closing the active tab
/// hands the focus to the same position, clipped to the new end, or to no
/// tab at all when none is left; closing a tab before the active one
/// shifts it left; closing one after it leaves it alone.
pub open spec fn active_after_remove(a: Option<int>, i: int, old_len: int) -> Option<int> {
    match a {
        None => None,
        Some(a0) => if a0 == i {
            if old_len == 1 {
                None
            } else if i >= old_len - 1 {
                Some(old_len - 2)
            } else {
                Some(i)
            }
        } else if i < a0 {
            Some(a0 - 1)
        } else {
            Some(a0)
        },
    }
}

/// The pending index after the tab at `i` closes: the decision dies with
/// its own tab, and otherwise follows the tab it names.
pub open spec fn pending_after_remove(p: Option<int>, i: int) -> Option<int> {
    match p {
        None => None,
        Some(p0) => if p0 == i {
            None
        } else if i < p0 {
            Some(p0 - 1)
        } else {
            Some(p0)
        },
    }
}

/// The ghost value of an optional loaded text.
pub open spec fn opt_text_view(o: Option<Vec<char>>) -> Option<Seq<char>> {
    match o {
        Some(t) => Some(t@),
        None => None,
    }
}

/// How a session changes when `key` is opened with the load result
/// `loaded`: an already open key only has its tab activated; otherwise a
/// successful load appends the key as the new active last tab, and a
/// failed load reports failure and changes nothing.
pub open spec fn opened(
    s0: SessionView,
    s1: SessionView,
    key: KeyView,
    loaded: Option<Seq<char>>,
    ok: bool,
) -> bool {
    if s0.docs.contains(key) {
        &&& ok
        &&& s1.docs == s0.docs
        &&& s1.contents == s0.contents
        &&& s1.dirty == s0.dirty
        &&& s1.pending == s0.pending
        &&& s1.active is Some
        &&& 0 <= s1.active->0 < s1.docs.len()
        &&& s1.docs[s1.active->0] == key
    } else if loaded is None {
        !ok && s1 == s0
    } else {
        &&& ok
        &&& s1.docs == s0.docs.push(key)
        &&& s1.contents == s0.contents.insert(key, loaded->0)
        &&& s1.dirty == s0.dirty
        &&& s1.pending == s0.pending
        &&& s1.active == Some(s0.docs.len() as int)
    }
}

/// How a session changes when `key` is shown with `text`: the text
/// replaces any cached content under the key, the tab is appended when
/// the key is not yet open, and in either case its tab becomes active.
pub open spec fn shown(s0: SessionView, s1: SessionView, key: KeyView, text: Seq<char>) -> bool {
    &&& s1.contents == s0.contents.insert(key, text)
    &&& s1.dirty == s0.dirty
    &&& s1.pending == s0.pending
    &&& if s0.docs.contains(key) {
        &&& s1.docs == s0.docs
        &&& s1.active is Some
        &&& 0 <= s1.active->0 < s1.docs.len()
        &&& s1.docs[s1.active->0] == key
    } else {
        s1.docs == s0.docs.push(key) && s1.active == Some(s0.docs.len() as int)
    }
}

impl Session {
    /// The representation invariants beneath the view.
    pub open spec fn inv(&self) -> bool {
        &&& self@.wf()
        &&& self.contents.wf()
        &&& self.dirty.wf()
    }

    /// An empty session: no documents, no cache, nothing dirty.
    pub fn new() -> (r: Session)
        ensures
            r.inv(),
            r@ == (SessionView {
                docs: Seq::empty(),
                contents: Map::empty(),
                dirty: Set::empty(),
                active: None,
                pending: None,
            }),
    {
        let r = Session {
            docs: Vec::new(),
            contents: ContentTable::new(),
            dirty: KeySet::new(),
            active_index: None,
            pending_close: None,
        };
        proof {
            assert(key_views(r.docs@) =~= Seq::<KeyView>::empty());
            assert(r@ =~= (SessionView {
                docs: Seq::empty(),
                contents: Map::empty(),
                dirty: Set::empty(),
                active: None,
                pending: None,
            }));
        }
        r
    }

    /// Looks up the tab position of `key`.
    pub fn find_key(&self, key: &DocKey) -> (r: Option<usize>)
        ensures
            match r {
                Some(i) => i < self@.docs.len() && self@.docs[i as int] == key@,
                None => !self@.docs.contains(key@),
            },
    {
        let r = position_of(&self.docs, key);
        proof {
            if r is None {
                assert forall|j: int| 0 <= j < self@.docs.len() implies self@.docs[j] != key@ by {
                    assert(self@.docs[j] == self.docs@[j]@);
                }
            } else {
                let i = r->0;
                assert(self@.docs[i as int] == self.docs@[i as int]@);
            }
        }
        r
    }

    /// Opens `key`: a key that is already open only has its tab activated,
    /// with nothing reloaded; otherwise the freshly loaded text is adopted
    /// and the key appended as the new active last tab. A failed load
    /// (`None`) reports the failure and changes nothing.
    pub fn insert_or_activate(&mut self, key: DocKey, loaded: Option<Vec<char>>) -> (r: Result<
        (),
        LoadError,
    >)
        requires
            old(self).inv(),
        ensures
            final(self).inv(),
            opened(old(self)@, final(self)@, key@, opt_text_view(loaded), r is Ok),
    {
        match self.find_key(&key) {
            Some(i) => {
                self.active_index = Some(i);
                proof {
                    assert(self@.docs.contains(key@));
                }
                Ok(())
            },
            None => {
                match loaded {
                    None => {
                        proof {
                            assert(final(self)@ =~= old(self)@);
                        }
                        Err(LoadError)
                    },
                    Some(text) => {
                        self.contents.put(key.dup(), text);
                        self.docs.push(key);
                        self.active_index = Some(self.docs.len() - 1);
                        proof {
                            assert(key_views(self.docs@) =~= key_views(old(self).docs@).push(
                                key@,
                            ));
                            let s0 = old(self)@;
                            let s1 = self@;
                            assert forall|i: int, j: int| 0 <= i < j < s1.docs.len()
                                implies s1.docs[i] != s1.docs[j] by {
                                if j == s1.docs.len() - 1 {
                                    assert(s1.docs[i] == s0.docs[i]);
                                    assert(!s0.docs.contains(key@));
                                }
                            }
                            assert forall|k: KeyView| s1.dirty.contains(k) implies s1.docs.contains(
                                k,
                            ) && k is Real by {
                                let i = choose|i: int| 0 <= i < s0.docs.len() && s0.docs[i] == k;
                                assert(s1.docs[i] == k);
                            }
                            assert forall|i: int| 0 <= i < s1.docs.len()
                                implies s1.contents.contains_key(#[trigger] s1.docs[i]) by {
                                if i < s0.docs.len() {
                                    assert(s1.docs[i] == s0.docs[i]);
                                }
                            }
                        }
                        Ok(())
                    },
                }
            },
        }
    }

    /// Marks `key` as carrying unsaved changes. A key that is not open, or
    /// that names a synthetic report, is left alone: reports never enter
    /// the dirty set.
    pub fn mark_dirty(&mut self, key: &DocKey)
        requires
            old(self).inv(),
        ensures
            final(self).inv(),
            final(self)@ == (SessionView {
                dirty: if old(self)@.docs.contains(key@) && key@ is Real {
                    old(self)@.dirty.insert(key@)
                } else {
                    old(self)@.dirty
                },
                ..old(self)@
            }),
    {
        let is_real = match key {
            DocKey::Real(_) => true,
            DocKey::Report(_) => false,
        };
        if !is_real {
            proof {
                assert(final(self)@ =~= old(self)@);
            }
            return ;
        }
        match self.find_key(key) {
            Some(i) => {
                proof {
                    assert(old(self)@.docs[i as int] == key@);
                    assert(old(self)@.docs.contains(key@));
                }
                self.dirty.insert(key.dup());
                proof {
                    let s1 = self@;
                    assert forall|k: KeyView| s1.dirty.contains(k) implies s1.docs.contains(k)
                        && k is Real by {
                        if k != key@ {
                            assert(old(self)@.dirty.contains(k));
                        }
                    }
                    assert(final(self)@ =~= (SessionView {
                        dirty: old(self)@.dirty.insert(key@),
                        ..old(self)@
                    }));
                }
            },
            None => {
                proof {
                    assert(final(self)@ =~= old(self)@);
                }
            },
        }
    }

    /// Drops the unsaved-changes flag of `key`, if it carries one.
    pub fn clear_dirty(&mut self, key: &DocKey)
        requires
            old(self).inv(),
        ensures
            final(self).inv(),
            final(self)@ == (SessionView { dirty: old(self)@.dirty.remove(key@), ..old(self)@ }),
    {
        self.dirty.remove(key);
        proof {
            assert(final(self)@ =~= (SessionView {
                dirty: old(self)@.dirty.remove(key@),
                ..old(self)@
            }));
        }
    }

    /// Closes the tab at `index` outright: the key leaves the tab list and
    /// the dirty set, its cached text is kept, and the active and pending
    /// indices are renumbered.
    pub fn remove(&mut self, index: usize)
        requires
            old(self).inv(),
            index < old(self)@.docs.len(),
        ensures
            final(self).inv(),
            final(self)@ == (SessionView {
                docs: old(self)@.docs.remove(index as int),
                contents: old(self)@.contents,
                dirty: old(self)@.dirty.remove(old(self)@.docs[index as int]),
                active: active_after_remove(
                    old(self)@.active,
                    index as int,
                    old(self)@.docs.len() as int,
                ),
                pending: pending_after_remove(old(self)@.pending, index as int),
            }),
    {
        let key = self.docs.remove(index);
        self.dirty.remove(&key);
        match self.active_index {
            Some(a) => {
                if index == a {
                    let len = self.docs.len();
                    self.active_index = if len == 0 {
                        None
                    } else if index >= len {
                        Some(len - 1)
                    } else {
                        Some(index)
                    };
                } else if index < a {
                    self.active_index = Some(a - 1);
                }
            },
            None => {},
        }
        match self.pending_close {
            Some(p) => {
                if index == p {
                    self.pending_close = None;
                } else if index < p {
                    self.pending_close = Some(p - 1);
                }
            },
            None => {},
        }
        proof {
            let s0 = old(self)@;
            let s1 = self@;
            let i = index as int;
            old(self).docs@.remove_ensures(i);
            s0.docs.remove_ensures(i);
            assert(key@ == s0.docs[i]);
            assert(key_views(self.docs@) =~= key_views(old(self).docs@).remove(i));
            assert forall|a: int, b: int| 0 <= a < b < s1.docs.len() implies s1.docs[a]
                != s1.docs[b] by {
                if b < i {
                } else if a < i {
                    assert(s1.docs[a] == s0.docs[a] && s1.docs[b] == s0.docs[b + 1]);
                } else {
                    assert(s1.docs[a] == s0.docs[a + 1] && s1.docs[b] == s0.docs[b + 1]);
                }
            }
            assert forall|j: int| 0 <= j < s1.docs.len() implies s1.contents.contains_key(
                #[trigger] s1.docs[j],
            ) by {
                if j < i {
                    assert(s1.docs[j] == s0.docs[j]);
                } else {
                    assert(s1.docs[j] == s0.docs[j + 1]);
                }
            }
            assert forall|k: KeyView| s1.dirty.contains(k) implies s1.docs.contains(k)
                && k is Real by {
                assert(s0.dirty.contains(k) && k != s0.docs[i]);
                let j = choose|j: int| 0 <= j < s0.docs.len() && s0.docs[j] == k;
                if j < i {
                    assert(s1.docs[j] == k);
                } else {
                    assert(j != i);
                    assert(s1.docs[j - 1] == k);
                }
            }
            assert(final(self)@ =~= (SessionView {
                docs: s0.docs.remove(i),
                contents: s0.contents,
                dirty: s0.dirty.remove(s0.docs[i]),
                active: active_after_remove(s0.active, i, s0.docs.len() as int),
                pending: pending_after_remove(s0.pending, i),
            }));
        }
    }

    /// Shows `key` with the given text: the text replaces any cached
    /// content under the key, the tab is appended if the key is not yet
    /// open, and in either case its tab becomes active.
    pub fn show_document(&mut self, key: DocKey, text: Vec<char>)
        requires
            old(self).inv(),
        ensures
            final(self).inv(),
            shown(old(self)@, final(self)@, key@, text@),
    {
        self.contents.put(key.dup(), text);
        match position_of(&self.docs, &key) {
            Some(i) => {
                self.active_index = Some(i);
                proof {
                    assert(self@.docs[i as int] == key@);
                    assert(self@.docs.contains(key@));
                }
            },
            None => {
                proof {
                    assert forall|j: int| 0 <= j < old(self)@.docs.len()
                        implies old(self)@.docs[j] != key@ by {
                        assert(old(self)@.docs[j] == old(self).docs@[j]@);
                    }
                }
                self.docs.push(key);
                self.active_index = Some(self.docs.len() - 1);
                proof {
                    assert(key_views(self.docs@) =~= key_views(old(self).docs@).push(key@));
                    let s0 = old(self)@;
                    let s1 = self@;
                    assert forall|a: int, b: int| 0 <= a < b < s1.docs.len() implies s1.docs[a]
                        != s1.docs[b] by {
                        if b == s1.docs.len() - 1 {
                            assert(s1.docs[a] == s0.docs[a]);
                        }
                    }
                    assert forall|k: KeyView| s1.dirty.contains(k) implies s1.docs.contains(k)
                        && k is Real by {
                        assert(s0.dirty.contains(k));
                        assert(s0.docs.contains(k));
                        let i = choose|i: int| 0 <= i < s0.docs.len() && s0.docs[i] == k;
                        assert(s1.docs[i] == k);
                    }
                    assert forall|i: int| 0 <= i < s1.docs.len() implies s1.contents.contains_key(
                        #[trigger] s1.docs[i],
                    ) by {
                        if i < s0.docs.len() {
                            assert(s1.docs[i] == s0.docs[i]);
                        }
                    }
                }
            },
        }
    }

    /// Replaces the key of the tab at `index` with `new_key` in place, as
    /// a successful save-as does: the new key adopts the old key's text,
    /// the old key's cache entry and dirty flag are dropped, and tab order
    /// and the active tab stay. Refused when another tab already holds
    /// `new_key`.
    pub fn rename_document(&mut self, index: usize, new_key: DocKey) -> (r: bool)
        requires
            old(self).inv(),
            index < old(self)@.docs.len(),
        ensures
            final(self).inv(),
            ({
                let s0 = old(self)@;
                let s1 = final(self)@;
                let okey = s0.docs[index as int];
                if exists|j: int| 0 <= j < s0.docs.len() && j != index && s0.docs[j] == new_key@ {
                    r == false && s1 == s0
                } else {
                    &&& r == true
                    &&& s1.docs == s0.docs.update(index as int, new_key@)
                    &&& s1.contents == s0.contents.remove(okey).insert(new_key@, s0.contents[okey])
                    &&& s1.dirty == s0.dirty.remove(okey)
                    &&& s1.active == s0.active
                    &&& s1.pending == s0.pending
                }
            }),
    {
        let ghost s0 = old(self)@;
        match position_of(&self.docs, &new_key) {
            Some(j) => {
                if j != index {
                    proof {
                        assert(s0.docs[j as int] == new_key@);
                        assert(final(self)@ =~= s0);
                    }
                    return false;
                }
            },
            None => {},
        }
        proof {
            assert forall|j: int| 0 <= j < s0.docs.len() && j != index
                implies s0.docs[j] != new_key@ by {
                if self.docs@[j]@ == new_key@ {
                    // position_of would have found it, at a unique position
                    assert(s0.docs[j] == self.docs@[j]@);
                }
            }
        }
        let old_key = self.docs[index].dup();
        let text = match self.contents.get(&old_key) {
            Some(t) => copy_text(t),
            None => {
                proof {
                    assert(s0.contents.contains_key(s0.docs[index as int]));
                    assert(false);
                }
                Vec::new()
            },
        };
        self.contents.drop_key(&old_key);
        self.contents.put(new_key.dup(), text);
        self.dirty.remove(&old_key);
        self.docs.set(index, new_key);
        proof {
            let s1 = self@;
            let i = index as int;
            let okey = s0.docs[i];
            assert(key_views(self.docs@) =~= key_views(old(self).docs@).update(i, new_key@));
            assert forall|a: int, b: int| 0 <= a < b < s1.docs.len() implies s1.docs[a]
                != s1.docs[b] by {
                if a != i && b != i {
                    assert(s1.docs[a] == s0.docs[a] && s1.docs[b] == s0.docs[b]);
                } else if a == i {
                    assert(s1.docs[b] == s0.docs[b]);
                } else {
                    assert(s1.docs[a] == s0.docs[a]);
                }
            }
            assert forall|j: int| 0 <= j < s1.docs.len() implies s1.contents.contains_key(
                #[trigger] s1.docs[j],
            ) by {
                if j != i {
                    assert(s1.docs[j] == s0.docs[j]);
                    assert(s0.docs[j] != okey);
                }
            }
            assert forall|k: KeyView| s1.dirty.contains(k) implies s1.docs.contains(k)
                && k is Real by {
                assert(s0.dirty.contains(k) && k != okey);
                let j = choose|j: int| 0 <= j < s0.docs.len() && s0.docs[j] == k;
                assert(j != i);
                assert(s1.docs[j] == k);
            }
            assert(final(self)@ =~= (SessionView {
                docs: s0.docs.update(i, new_key@),
                contents: s0.contents.remove(okey).insert(new_key@, s0.contents[okey]),
                dirty: s0.dirty.remove(okey),
                active: s0.active,
                pending: s0.pending,
            }));
        }
        true
    }
}

/// Closing tab `i` renumbers the active tab `a` by the rule: a close
/// before the active tab shifts it left by one; closing the active tab
/// itself hands the focus to the same position clipped to the new end,
/// or to no tab when none is left; a close after it changes nothing.
pub proof fn lemma_close_renumbering(a: int, i: int, len: int)
    requires
        0 <= i < len,
        0 <= a < len,
    ensures
        i < a ==> active_after_remove(Some(a), i, len) == Some(a - 1),
        i == a && len == 1 ==> active_after_remove(Some(a), i, len) == None::<int>,
        i == a && len > 1 ==> active_after_remove(Some(a), i, len) == Some(
            if i < len - 1 {
                i
            } else {
                len - 2
            },
        ),
        i > a ==> active_after_remove(Some(a), i, len) == Some(a),
{
}

/// Opening the same key twice activates the existing tab rather than
/// creating a duplicate: the second opening leaves the tab list exactly
/// as the first left it, pointing the focus at that key's tab, and a
/// well-formed tab list never holds a key twice.
pub proof fn lemma_reopen_no_duplicate(
    s0: SessionView,
    s1: SessionView,
    s2: SessionView,
    key: KeyView,
    t1: Option<Seq<char>>,
    t2: Option<Seq<char>>,
    ok2: bool,
)
    requires
        s0.wf(),
        opened(s0, s1, key, t1, true),
        opened(s1, s2, key, t2, ok2),
    ensures
        s2.docs == s1.docs,
        forall|i: int, j: int| 0 <= i < j < s2.docs.len() ==> s2.docs[i] != s2.docs[j],
        s2.active is Some && s2.docs[s2.active->0] == key,
{
    if s0.docs.contains(key) {
        assert(s1.docs.contains(key));
    } else {
        assert(s1.docs == s0.docs.push(key));
        assert(s1.docs[s1.docs.len() - 1] == key);
        assert(s1.docs.contains(key));
        assert forall|i: int, j: int| 0 <= i < j < s1.docs.len() implies s1.docs[i]
            != s1.docs[j] by {
            if j == s1.docs.len() - 1 {
                assert(s1.docs[i] == s0.docs[i]);
                assert(!s0.docs.contains(key));
            } else {
                assert(s1.docs[i] == s0.docs[i] && s1.docs[j] == s0.docs[j]);
            }
        }
    }
}

} // verus!
