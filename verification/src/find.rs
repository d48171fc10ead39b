use vstd::prelude::*;

use crate::session::index_view;
use crate::text::{find_matches, lemma_occurrences_in_range, occurrences, offsets_int};

verus! {

/// Which neighbouring match the cursor moves to.
pub enum Direction {
    Forward,
    Backward,
}

/// The mathematical state of an in-buffer search: the query, the
/// character offsets of its matches, and the cursor over them.
#[verifier::ext_equal]
pub struct FindView {
    pub query: Seq<char>,
    pub matches: Seq<int>,
    pub cursor: Option<int>,
}

impl FindView {
    /// The cursor selects a match exactly when there is one.
    pub open spec fn wf(self) -> bool {
        &&& (self.cursor is None <==> self.matches.len() == 0)
        &&& (self.cursor is Some ==> 0 <= self.cursor->0 < self.matches.len())
    }
}

/// The find state after locating the query in `content`: an empty query
/// means no active search; otherwise the matches are the non-overlapping
/// occurrences in order, the cursor stays where it was when that is still
/// a match, and falls back to the first match or to nothing at all.
pub open spec fn recompute_spec(st: FindView, content: Seq<char>) -> FindView {
    let ms = if st.query.len() == 0 {
        Seq::<int>::empty()
    } else {
        occurrences(content, st.query)
    };
    FindView {
        query: st.query,
        matches: ms,
        cursor: if ms.len() == 0 {
            None
        } else if st.cursor is Some && 0 <= st.cursor->0 < ms.len() {
            st.cursor
        } else {
            Some(0int)
        },
    }
}

/// The find state after one cursor step, wrapping around in either
/// direction; with no matches nothing moves.
pub open spec fn advance_spec(st: FindView, dir: Direction) -> FindView {
    if st.matches.len() == 0 {
        st
    } else {
        let c = match st.cursor {
            Some(c0) => c0,
            None => 0int,
        };
        let c2 = match dir {
            Direction::Forward => if c + 1 >= st.matches.len() {
                0int
            } else {
                c + 1
            },
            Direction::Backward => if c <= 0 {
                st.matches.len() - 1
            } else {
                c - 1
            },
        };
        FindView { cursor: Some(c2), ..st }
    }
}

/// The in-buffer find engine over the active document.
pub struct FindState {
    pub query: Vec<char>,
    pub matches: Vec<usize>,
    pub cursor: Option<usize>,
}

impl View for FindState {
    type V = FindView;

    open spec fn view(&self) -> FindView {
        FindView {
            query: self.query@,
            matches: offsets_int(self.matches@),
            cursor: index_view(self.cursor),
        }
    }
}

impl FindState {
    /// The view is well formed, and each recorded offset leaves room for
    /// the query, so the end of a selected range cannot overflow.
    pub open spec fn inv(&self) -> bool {
        &&& self@.wf()
        &&& forall|k: int|
            0 <= k < self.matches@.len() ==> self.matches@[k] + self.query@.len() <= usize::MAX
    }

    /// A find state with no query and no matches.
    pub fn new() -> (r: FindState)
        ensures
            r.inv(),
            r@ == (FindView { query: Seq::empty(), matches: Seq::empty(), cursor: None }),
    {
        let r = FindState { query: Vec::new(), matches: Vec::new(), cursor: None };
        proof {
            assert(offsets_int(r.matches@) =~= Seq::<int>::empty());
            assert(r@ =~= (FindView { query: Seq::empty(), matches: Seq::empty(), cursor: None }));
        }
        r
    }

    /// Locates every occurrence of the current query in `content` and
    /// renumbers the cursor.
    pub fn recompute(&mut self, content: &Vec<char>)
        requires
            old(self)@.wf(),
        ensures
            final(self).inv(),
            final(self)@ == recompute_spec(old(self)@, content@),
    {
        let n = content.len();
        if self.query.len() == 0 {
            self.matches = Vec::new();
            self.cursor = None;
            proof {
                assert(offsets_int(self.matches@) =~= Seq::<int>::empty());
                assert(final(self)@ =~= recompute_spec(old(self)@, content@));
            }
            return ;
        }
        let ms = find_matches(content, &self.query);
        self.matches = ms;
        if self.matches.len() == 0 {
            self.cursor = None;
        } else {
            match self.cursor {
                Some(c) => {
                    if c >= self.matches.len() {
                        self.cursor = Some(0);
                    }
                },
                None => {
                    self.cursor = Some(0);
                },
            }
        }
        proof {
            lemma_occurrences_in_range(content@, self.query@, 0);
            assert forall|k: int| 0 <= k < self.matches@.len() implies self.matches@[k]
                + self.query@.len() <= usize::MAX by {
                assert(offsets_int(self.matches@)[k] == occurrences(content@, self.query@)[k]);
            }
            assert(final(self)@ =~= recompute_spec(old(self)@, content@));
        }
    }

    /// Moves the cursor one match forward or backward, wrapping at the
    /// ends.
    pub fn advance(&mut self, dir: Direction)
        requires
            old(self).inv(),
        ensures
            final(self).inv(),
            final(self)@ == advance_spec(old(self)@, dir),
    {
        let len = self.matches.len();
        if len == 0 {
            proof {
                assert(final(self)@ =~= advance_spec(old(self)@, dir));
            }
            return ;
        }
        let c = match self.cursor {
            Some(c0) => c0,
            None => 0,
        };
        let c2 = match dir {
            Direction::Forward => if c + 1 >= len {
                0
            } else {
                c + 1
            },
            Direction::Backward => if c == 0 {
                len - 1
            } else {
                c - 1
            },
        };
        self.cursor = Some(c2);
        proof {
            assert(final(self)@ =~= advance_spec(old(self)@, dir));
        }
    }

    /// The half-open character range of the selected match, for the
    /// caller to highlight: it starts at the match and spans the query.
    pub fn current_match_range(&self) -> (r: Option<(usize, usize)>)
        requires
            self.inv(),
        ensures
            match r {
                Some(p) => self@.cursor is Some && p.0 == self@.matches[self@.cursor->0] && p.1
                    == p.0 + self@.query.len(),
                None => self@.cursor is None,
            },
    {
        match self.cursor {
            Some(c) => {
                let off = self.matches[c];
                Some((off, off + self.query.len()))
            },
            None => None,
        }
    }
}

/// Re-running the search on unchanged content and query settles nothing
/// new: one recomputation is already a fixed point, so the matches in
/// particular come out identical.
pub proof fn lemma_recompute_idempotent(st: FindView, content: Seq<char>)
    ensures
        recompute_spec(recompute_spec(st, content), content) == recompute_spec(st, content),
{
    let s1 = recompute_spec(st, content);
    assert(recompute_spec(s1, content) =~= s1);
}

/// Stepping the cursor forward and then backward returns the find state,
/// and its cursor in particular, to exactly where it stood, whenever
/// there are matches to step through.
pub proof fn lemma_advance_round_trip(st: FindView)
    requires
        st.wf(),
        st.matches.len() > 0,
    ensures
        advance_spec(advance_spec(st, Direction::Forward), Direction::Backward) == st,
{
    assert(advance_spec(advance_spec(st, Direction::Forward), Direction::Backward) =~= st);
}

} // verus!
