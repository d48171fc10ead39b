use vstd::prelude::*;
use vstd::pervasive::VecAdditionalExecFns;

use crate::key::{position_of, DocKey, KeyView};

verus! {

/// One cached document text under its key.
pub struct ContentEntry {
    pub key: DocKey,
    pub text: Vec<char>,
}

/// The pairings recorded by a list of cache entries.
pub open spec fn entry_views(es: Seq<ContentEntry>) -> Seq<(KeyView, Seq<char>)> {
    es.map_values(|e: ContentEntry| (e.key@, e.text@))
}

/// No key is recorded twice.
pub open spec fn distinct_entry_keys(es: Seq<(KeyView, Seq<char>)>) -> bool {
    forall|i: int, j: int| 0 <= i < j < es.len() ==> es[i].0 != es[j].0
}

/// The mapping that a list of entries denotes.
pub open spec fn entries_map(es: Seq<(KeyView, Seq<char>)>) -> Map<KeyView, Seq<char>>
    decreases es.len(),
{
    if es.len() == 0 {
        Map::empty()
    } else {
        entries_map(es.drop_last()).insert(es.last().0, es.last().1)
    }
}

/// Each recorded entry is present in the denoted mapping with its own text.
proof fn lemma_entries_map_index(es: Seq<(KeyView, Seq<char>)>, i: int)
    requires
        distinct_entry_keys(es),
        0 <= i < es.len(),
    ensures
        entries_map(es).contains_key(es[i].0),
        entries_map(es)[es[i].0] == es[i].1,
    decreases es.len(),
{
    if i == es.len() - 1 {
    } else {
        assert(es.drop_last()[i] == es[i]);
        lemma_entries_map_index(es.drop_last(), i);
        assert(es[i].0 != es.last().0);
    }
}

/// Every key of the denoted mapping comes from some recorded entry.
proof fn lemma_entries_map_domain(es: Seq<(KeyView, Seq<char>)>, k: KeyView)
    requires
        entries_map(es).contains_key(k),
    ensures
        exists|i: int| 0 <= i < es.len() && #[trigger] es[i].0 == k,
    decreases es.len(),
{
    if es.len() > 0 {
        if es.last().0 == k {
            assert(es[es.len() - 1].0 == k);
        } else {
            lemma_entries_map_domain(es.drop_last(), k);
            let i = choose|i: int| 0 <= i < es.drop_last().len() && #[trigger] es.drop_last()[i].0 == k;
            assert(es[i].0 == k);
        }
    }
}

/// Overwriting the text of the entry that holds a key denotes inserting
/// under that key.
proof fn lemma_entries_map_update(es: Seq<(KeyView, Seq<char>)>, i: int, t: Seq<char>)
    requires
        distinct_entry_keys(es),
        0 <= i < es.len(),
    ensures
        entries_map(es.update(i, (es[i].0, t))) == entries_map(es).insert(es[i].0, t),
    decreases es.len(),
{
    let es2 = es.update(i, (es[i].0, t));
    if i == es.len() - 1 {
        assert(es2.drop_last() =~= es.drop_last());
        assert(es2.last() == (es[i].0, t));
        assert(entries_map(es.drop_last()).insert(es[i].0, t) =~= entries_map(
            es.drop_last(),
        ).insert(es.last().0, es.last().1).insert(es[i].0, t));
    } else {
        assert(es.drop_last()[i] == es[i]);
        lemma_entries_map_update(es.drop_last(), i, t);
        assert(es2.drop_last() =~= es.drop_last().update(i, (es[i].0, t)));
        assert(es2.last() == es.last());
        assert(es[i].0 != es.last().0);
        assert(entries_map(es.drop_last()).insert(es[i].0, t).insert(es.last().0, es.last().1)
            =~= entries_map(es.drop_last()).insert(es.last().0, es.last().1).insert(es[i].0, t));
    }
}

/// Dropping the entry that holds a key denotes removing that key.
proof fn lemma_entries_map_remove(es: Seq<(KeyView, Seq<char>)>, i: int)
    requires
        distinct_entry_keys(es),
        0 <= i < es.len(),
    ensures
        entries_map(es.remove(i)) == entries_map(es).remove(es[i].0),
    decreases es.len(),
{
    let es2 = es.remove(i);
    es.remove_ensures(i);
    if i == es.len() - 1 {
        assert(es2 =~= es.drop_last());
        if entries_map(es.drop_last()).contains_key(es[i].0) {
            lemma_entries_map_domain(es.drop_last(), es[i].0);
            let j = choose|j: int|
                0 <= j < es.drop_last().len() && #[trigger] es.drop_last()[j].0 == es[i].0;
            assert(es[j].0 == es[i].0);
            assert(false);
        }
        assert(entries_map(es.drop_last()) =~= entries_map(es.drop_last()).insert(
            es.last().0,
            es.last().1,
        ).remove(es[i].0));
    } else {
        assert(es.drop_last()[i] == es[i]);
        lemma_entries_map_remove(es.drop_last(), i);
        assert(es2.drop_last() =~= es.drop_last().remove(i));
        assert(es2.last() == es.last());
        assert(es[i].0 != es.last().0);
        assert(entries_map(es.drop_last()).remove(es[i].0).insert(es.last().0, es.last().1)
            =~= entries_map(es.drop_last()).insert(es.last().0, es.last().1).remove(es[i].0));
    }
}
/// The text cache of a session: each document key maps to the text last
/// loaded or stored for it. An entry outlives its tab: closing a document
/// keeps its cached text for the rest of the session.
pub struct ContentTable {
    entries: Vec<ContentEntry>,
}

impl View for ContentTable {
    type V = Map<KeyView, Seq<char>>;

    closed spec fn view(&self) -> Map<KeyView, Seq<char>> {
        entries_map(entry_views(self.entries@))
    }
}

impl ContentTable {
    /// The cache keeps one entry per key.
    pub closed spec fn wf(&self) -> bool {
        distinct_entry_keys(entry_views(self.entries@))
    }

    /// An empty cache.
    pub fn new() -> (r: ContentTable)
        ensures
            r.wf(),
            r@ == Map::<KeyView, Seq<char>>::empty(),
    {
        let r = ContentTable { entries: Vec::new() };
        proof {
            assert(entry_views(r.entries@) =~= Seq::<(KeyView, Seq<char>)>::empty());
        }
        r
    }

    /// Looks up the cached text of a document.
    pub fn get(&self, key: &DocKey) -> (r: Option<&Vec<char>>)
        requires
            self.wf(),
        ensures
            match r {
                Some(t) => self@.contains_key(key@) && t@ == self@[key@],
                None => !self@.contains_key(key@),
            },
    {
        let ghost evs = entry_views(self.entries@);
        let n = self.entries.len();
        let mut j: usize = 0;
        while j < n
            invariant
                j <= n,
                n == self.entries@.len(),
                self.wf(),
                evs == entry_views(self.entries@),
                forall|k: int| 0 <= k < j ==> evs[k].0 != key@,
            decreases n - j,
        {
            if self.entries[j].key.key_eq(key) {
                proof {
                    assert(evs[j as int].0 == key@);
                    lemma_entries_map_index(evs, j as int);
                }
                return Some(&self.entries[j].text);
            }
            proof {
                assert(evs[j as int].0 == self.entries@[j as int].key@);
            }
            j += 1;
        }
        proof {
            if entries_map(evs).contains_key(key@) {
                lemma_entries_map_domain(evs, key@);
            }
        }
        None
    }

    /// Stores `text` as the cached content of `key`, replacing any entry
    /// the key already has.
    pub fn put(&mut self, key: DocKey, text: Vec<char>)
        requires
            old(self).wf(),
        ensures
            final(self).wf(),
            final(self)@ == old(self)@.insert(key@, text@),
    {
        let ghost evs = entry_views(self.entries@);
        let n = self.entries.len();
        let mut j: usize = 0;
        while j < n
            invariant
                j <= n,
                n == self.entries@.len(),
                self.wf(),
                self.entries@ == old(self).entries@,
                evs == entry_views(self.entries@),
                forall|k: int| 0 <= k < j ==> evs[k].0 != key@,
            decreases n - j,
        {
            if self.entries[j].key.key_eq(&key) {
                proof {
                    assert(evs[j as int].0 == key@);
                    lemma_entries_map_update(evs, j as int, text@);
                }
                self.entries.set(j, ContentEntry { key, text });
                proof {
                    assert(entry_views(self.entries@) =~= evs.update(j as int, (key@, text@)));
                    assert(evs.update(j as int, (key@, text@)) =~= evs.update(
                        j as int,
                        (evs[j as int].0, text@),
                    ));
                    assert forall|a: int, b: int|
                        0 <= a < b < entry_views(self.entries@).len() implies entry_views(
                        self.entries@,
                    )[a].0 != entry_views(self.entries@)[b].0 by {
                        assert(entry_views(self.entries@)[a].0 == evs[a].0);
                        assert(entry_views(self.entries@)[b].0 == evs[b].0);
                    }
                }
                return ;
            }
            proof {
                assert(evs[j as int].0 == self.entries@[j as int].key@);
            }
            j += 1;
        }
        self.entries.push(ContentEntry { key, text });
        proof {
            assert(entry_views(self.entries@) =~= evs.push((key@, text@)));
            assert(entry_views(self.entries@).drop_last() =~= evs);
            assert(entries_map(entry_views(self.entries@)) == entries_map(evs).insert(
                key@,
                text@,
            ));
        }
    }
}

/// The set of key identities that a list of keys holds.
pub open spec fn key_set(s: Seq<DocKey>) -> Set<KeyView> {
    Set::new(|k: KeyView| exists|i: int| 0 <= i < s.len() && s[i]@ == k)
}

/// An unordered collection of document keys, each held at most once; the
/// session uses one for the keys with unsaved changes.
pub struct KeySet {
    keys: Vec<DocKey>,
}

impl View for KeySet {
    type V = Set<KeyView>;

    closed spec fn view(&self) -> Set<KeyView> {
        key_set(self.keys@)
    }
}

impl KeySet {
    /// Each key identity is held at most once.
    pub closed spec fn wf(&self) -> bool {
        forall|i: int, j: int|
            0 <= i < j < self.keys@.len() ==> self.keys@[i]@ != self.keys@[j]@
    }

    /// An empty collection.
    pub fn new() -> (r: KeySet)
        ensures
            r.wf(),
            r@ == Set::<KeyView>::empty(),
    {
        let r = KeySet { keys: Vec::new() };
        proof {
            assert(r@ =~= Set::<KeyView>::empty());
        }
        r
    }

    /// Whether `key` is held.
    pub fn contains(&self, key: &DocKey) -> (r: bool)
        ensures
            r == self@.contains(key@),
    {
        match position_of(&self.keys, key) {
            Some(_) => true,
            None => false,
        }
    }

    /// Adds `key`; holding it already changes nothing.
    pub fn insert(&mut self, key: DocKey)
        requires
            old(self).wf(),
        ensures
            final(self).wf(),
            final(self)@ == old(self)@.insert(key@),
    {
        match position_of(&self.keys, &key) {
            Some(_) => {
                proof {
                    assert(self@.contains(key@));
                    assert(self@ =~= old(self)@.insert(key@));
                }
            },
            None => {
                self.keys.push(key);
                proof {
                    let s0 = old(self).keys@;
                    let s1 = self.keys@;
                    assert forall|k: KeyView| key_set(s1).contains(k) implies old(self)@.insert(
                        key@,
                    ).contains(k) by {
                        let i = choose|i: int| 0 <= i < s1.len() && s1[i]@ == k;
                        if i < s0.len() {
                            assert(s0[i]@ == k);
                        }
                    }
                    assert forall|k: KeyView| old(self)@.insert(key@).contains(k)
                        implies key_set(s1).contains(k) by {
                        if k == key@ {
                            assert(s1[s1.len() - 1]@ == k);
                        } else {
                            let i = choose|i: int| 0 <= i < s0.len() && s0[i]@ == k;
                            assert(s1[i]@ == k);
                        }
                    }
                    assert(self@ =~= old(self)@.insert(key@));
                }
            },
        }
    }

    /// Drops `key`; not holding it changes nothing.
    pub fn remove(&mut self, key: &DocKey)
        requires
            old(self).wf(),
        ensures
            final(self).wf(),
            final(self)@ == old(self)@.remove(key@),
    {
        match position_of(&self.keys, key) {
            Some(i) => {
                let _ = self.keys.remove(i);
                proof {
                    let s0 = old(self).keys@;
                    let s1 = self.keys@;
                    assert(s1 == s0.remove(i as int));
                    s0.remove_ensures(i as int);
                    assert forall|k: KeyView| key_set(s1).contains(k) implies old(self)@.remove(
                        key@,
                    ).contains(k) by {
                        let j = choose|j: int| 0 <= j < s1.len() && s1[j]@ == k;
                        if j < i {
                            assert(s0[j]@ == k);
                            assert(s0[j]@ != s0[i as int]@);
                        } else {
                            assert(s0[j + 1]@ == k);
                            assert(s0[j + 1]@ != s0[i as int]@);
                        }
                    }
                    assert forall|k: KeyView| old(self)@.remove(key@).contains(k)
                        implies key_set(s1).contains(k) by {
                        let j = choose|j: int| 0 <= j < s0.len() && s0[j]@ == k;
                        assert(s0[i as int]@ == key@);
                        if j < i {
                            assert(s1[j]@ == k);
                        } else {
                            assert(s1[j - 1]@ == k);
                        }
                    }
                    assert(self@ =~= old(self)@.remove(key@));
                    assert forall|a: int, b: int|
                        0 <= a < b < s1.len() implies s1[a]@ != s1[b]@ by {
                        if b < i {
                        } else if a < i {
                            assert(s1[a]@ == s0[a]@);
                            assert(s1[b]@ == s0[b + 1]@);
                        } else {
                            assert(s1[a]@ == s0[a + 1]@);
                            assert(s1[b]@ == s0[b + 1]@);
                        }
                    }
                }
            },
            None => {
                proof {
                    assert(!self@.contains(key@));
                    assert(self@ =~= old(self)@.remove(key@));
                }
            },
        }
    }

    /// Lists the held keys, one copy of each.
    pub fn to_keys(&self) -> (r: Vec<DocKey>)
        requires
            self.wf(),
        ensures
            forall|i: int| 0 <= i < r@.len() ==> self@.contains(#[trigger] r@[i]@),
            forall|k: KeyView| self@.contains(k)
                ==> exists|i: int| 0 <= i < r@.len() && #[trigger] r@[i]@ == k,
            forall|i: int, j: int| 0 <= i < j < r@.len() ==> r@[i]@ != r@[j]@,
    {
        let n = self.keys.len();
        let mut r: Vec<DocKey> = Vec::new();
        let mut j: usize = 0;
        while j < n
            invariant
                j <= n,
                n == self.keys@.len(),
                self.wf(),
                r@.len() == j,
                forall|k: int| 0 <= k < j ==> r@[k]@ == self.keys@[k]@,
            decreases n - j,
        {
            let copy = self.keys[j].dup();
            r.push(copy);
            j += 1;
        }
        proof {
            assert forall|k: KeyView| self@.contains(k) implies exists|i: int|
                0 <= i < r@.len() && #[trigger] r@[i]@ == k by {
                let i = choose|i: int| 0 <= i < self.keys@.len() && self.keys@[i]@ == k;
                assert(r@[i]@ == k);
            }
        }
        r
    }
}

impl ContentTable {
    /// Drops the cache entry of `key`, if any.
    pub fn drop_key(&mut self, key: &DocKey)
        requires
            old(self).wf(),
        ensures
            final(self).wf(),
            final(self)@ == old(self)@.remove(key@),
    {
        let ghost evs = entry_views(self.entries@);
        let n = self.entries.len();
        let mut j: usize = 0;
        while j < n
            invariant
                j <= n,
                n == self.entries@.len(),
                self.wf(),
                self.entries@ == old(self).entries@,
                evs == entry_views(self.entries@),
                forall|k: int| 0 <= k < j ==> evs[k].0 != key@,
            decreases n - j,
        {
            if self.entries[j].key.key_eq(key) {
                proof {
                    assert(evs[j as int].0 == key@);
                    lemma_entries_map_remove(evs, j as int);
                }
                let _ = self.entries.remove(j);
                proof {
                    old(self).entries@.remove_ensures(j as int);
                    evs.remove_ensures(j as int);
                    assert(entry_views(self.entries@) =~= evs.remove(j as int));
                    assert forall|a: int, b: int|
                        0 <= a < b < entry_views(self.entries@).len() implies entry_views(
                        self.entries@,
                    )[a].0 != entry_views(self.entries@)[b].0 by {
                        let ev2 = evs.remove(j as int);
                        if b < j {
                            assert(ev2[a] == evs[a] && ev2[b] == evs[b]);
                        } else if a < j {
                            assert(ev2[a] == evs[a] && ev2[b] == evs[b + 1]);
                        } else {
                            assert(ev2[a] == evs[a + 1] && ev2[b] == evs[b + 1]);
                        }
                    }
                }
                return ;
            }
            proof {
                assert(evs[j as int].0 == self.entries@[j as int].key@);
            }
            j += 1;
        }
        proof {
            if entries_map(evs).contains_key(key@) {
                lemma_entries_map_domain(evs, key@);
            }
            assert(self@ =~= old(self)@.remove(key@));
        }
    }
}

} // verus!
