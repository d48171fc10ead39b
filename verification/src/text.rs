use vstd::prelude::*;

verus! {

/// True when the pattern `q` occurs in `t` starting at character offset `i`.
pub open spec fn match_at(t: Seq<char>, q: Seq<char>, i: int) -> bool {
    &&& 0 <= i
    &&& i + q.len() <= t.len()
    &&& t.subrange(i, i + q.len()) == q
}

/// True when `q` occurs somewhere in `t`.
pub open spec fn has_match(t: Seq<char>, q: Seq<char>) -> bool {
    exists|i: int| match_at(t, q, i)
}

/// Offsets of the non-overlapping occurrences of `q` in `t`, scanning left to
/// right from offset `i` and resuming just past each occurrence found.
pub open spec fn occurrences_from(t: Seq<char>, q: Seq<char>, i: int) -> Seq<int>
    decreases t.len() - i,
{
    if q.len() == 0 || i < 0 || i + q.len() > t.len() {
        Seq::empty()
    } else if match_at(t, q, i) {
        seq![i] + occurrences_from(t, q, i + q.len())
    } else {
        occurrences_from(t, q, i + 1)
    }
}

/// Offsets of all non-overlapping occurrences of `q` in `t`, left to right.
pub open spec fn occurrences(t: Seq<char>, q: Seq<char>) -> Seq<int> {
    occurrences_from(t, q, 0)
}

/// The character offsets recorded by a search, as mathematical integers.
pub open spec fn offsets_int(s: Seq<usize>) -> Seq<int> {
    s.map_values(|x: usize| x as int)
}

/// Every offset reported from position `i` is itself a genuine match position
/// at or beyond `i`.
pub proof fn lemma_occurrences_in_range(t: Seq<char>, q: Seq<char>, i: int)
    ensures
        forall|k: int| 0 <= k < occurrences_from(t, q, i).len()
            ==> i <= #[trigger] occurrences_from(t, q, i)[k]
                && match_at(t, q, occurrences_from(t, q, i)[k]),
    decreases t.len() - i,
{
    if q.len() == 0 || i < 0 || i + q.len() > t.len() {
    } else if match_at(t, q, i) {
        lemma_occurrences_in_range(t, q, i + q.len() as int);
        let s = occurrences_from(t, q, i);
        let rest = occurrences_from(t, q, i + q.len());
        assert(s == seq![i] + rest);
        assert forall|k: int| 0 <= k < s.len() implies i <= #[trigger] s[k] && match_at(t, q, s[k]) by {
            if k == 0 {
                assert(s[k] == i);
            } else {
                assert(s[k] == rest[k - 1]);
            }
        }
    } else {
        lemma_occurrences_in_range(t, q, i + 1);
        let s = occurrences_from(t, q, i);
        assert forall|k: int| 0 <= k < s.len() implies i <= #[trigger] s[k] && match_at(t, q, s[k]) by {
            assert(s[k] == occurrences_from(t, q, i + 1)[k]);
        }
    }
}

/// Checks whether `q` occurs in `t` at offset `i`.
fn is_match_at(t: &Vec<char>, q: &Vec<char>, i: usize) -> (r: bool)
    requires
        i + q@.len() <= t@.len(),
    ensures
        r == match_at(t@, q@, i as int),
{
    let tl = t.len();
    let mut j: usize = 0;
    while j < q.len()
        invariant
            j <= q@.len(),
            i + q@.len() <= t@.len(),
            tl == t@.len(),
            forall|k: int| 0 <= k < j ==> t@[i + k] == q@[k],
        decreases q@.len() - j,
    {
        if t[i + j] != q[j] {
            assert(t@.subrange(i as int, i + q@.len())[j as int] != q@[j as int]);
            return false;
        }
        j += 1;
    }
    assert(t@.subrange(i as int, i + q@.len()) =~= q@);
    true
}

/// Finds the character offsets of all non-overlapping occurrences of `q`
/// in `t`, left to right.
pub fn find_matches(t: &Vec<char>, q: &Vec<char>) -> (out: Vec<usize>)
    requires
        q@.len() > 0,
    ensures
        offsets_int(out@) == occurrences(t@, q@),
{
    let mut out: Vec<usize> = Vec::new();
    if q.len() > t.len() {
        assert(offsets_int(out@) =~= occurrences(t@, q@));
        return out;
    }
    let last_start: usize = t.len() - q.len();
    let mut i: usize = 0;
    while i <= last_start
        invariant
            q@.len() > 0,
            q@.len() <= t@.len(),
            t@.len() <= usize::MAX,
            last_start == t@.len() - q@.len(),
            i <= t@.len(),
            offsets_int(out@) + occurrences_from(t@, q@, i as int) == occurrences(t@, q@),
        decreases t@.len() - i,
    {
        if is_match_at(t, q, i) {
            let ghost prev = out@;
            out.push(i);
            assert(offsets_int(out@) =~= offsets_int(prev).push(i as int));
            assert(offsets_int(out@) + occurrences_from(t@, q@, i + q@.len())
                =~= offsets_int(prev) + occurrences_from(t@, q@, i as int));
            i += q.len();
        } else {
            i += 1;
        }
    }
    assert(offsets_int(out@) =~= occurrences(t@, q@));
    out
}

/// Checks whether `q` occurs anywhere in `t`.
pub fn contains_match(t: &Vec<char>, q: &Vec<char>) -> (r: bool)
    requires
        q@.len() > 0,
    ensures
        r == has_match(t@, q@),
{
    if q.len() > t.len() {
        return false;
    }
    let last_start: usize = t.len() - q.len();
    let mut i: usize = 0;
    while i <= last_start
        invariant
            q@.len() > 0,
            q@.len() <= t@.len(),
            t@.len() <= usize::MAX,
            last_start == t@.len() - q@.len(),
            i <= last_start + 1,
            forall|j: int| 0 <= j < i ==> !match_at(t@, q@, j),
        decreases last_start + 1 - i,
    {
        if is_match_at(t, q, i) {
            assert(match_at(t@, q@, i as int));
            return true;
        }
        i += 1;
    }
    assert(forall|j: int| !match_at(t@, q@, j));
    false
}

/// The text with every non-overlapping occurrence of `f` replaced by `r`,
/// scanning left to right; each occurrence in the original text is replaced
/// exactly once.
pub open spec fn replaced(t: Seq<char>, f: Seq<char>, r: Seq<char>) -> Seq<char>
    decreases t.len(),
{
    if f.len() == 0 || t.len() < f.len() {
        t
    } else if match_at(t, f, 0) {
        r + replaced(t.skip(f.len() as int), f, r)
    } else {
        seq![t[0]] + replaced(t.skip(1), f, r)
    }
}

/// Builds the text with every non-overlapping occurrence of `f` in `t`
/// replaced by `r`, left to right.
pub fn replace_all(t: &Vec<char>, f: &Vec<char>, r: &Vec<char>) -> (out: Vec<char>)
    requires
        f@.len() > 0,
    ensures
        out@ == replaced(t@, f@, r@),
{
    let mut out: Vec<char> = Vec::new();
    let tl = t.len();
    let mut i: usize = 0;
    assert(t@.skip(0) =~= t@);
    while i < tl
        invariant
            f@.len() > 0,
            tl == t@.len(),
            i <= tl,
            replaced(t@, f@, r@) == out@ + replaced(t@.skip(i as int), f@, r@),
        decreases tl - i,
    {
        if tl - i >= f.len() && is_match_at(t, f, i) {
            let ghost pre = out@;
            out.extend_from_slice(r.as_slice());
            proof {
                assert(t@.skip(i as int).subrange(0, f@.len() as int)
                    =~= t@.subrange(i as int, i + f@.len()));
                assert(match_at(t@.skip(i as int), f@, 0));
                assert(t@.skip(i as int).skip(f@.len() as int) =~= t@.skip(i + f@.len()));
                assert(out@ + replaced(t@.skip(i + f@.len()), f@, r@)
                    =~= pre + replaced(t@.skip(i as int), f@, r@));
            }
            i += f.len();
        } else {
            let ghost pre = out@;
            let c = t[i];
            out.push(c);
            proof {
                if tl - i >= f.len() {
                    assert(t@.skip(i as int).subrange(0, f@.len() as int)
                        =~= t@.subrange(i as int, i + f@.len()));
                    assert(!match_at(t@.skip(i as int), f@, 0));
                } else {
                    assert(t@.skip(i as int).len() < f@.len());
                }
                assert(t@.skip(i as int).skip(1) =~= t@.skip(i + 1));
                assert(t@.skip(i as int)[0] == t@[i as int]);
                assert(out@ + replaced(t@.skip(i + 1), f@, r@)
                    =~= pre + replaced(t@.skip(i as int), f@, r@));
            }
            i += 1;
        }
    }
    assert(t@.skip(i as int) =~= Seq::<char>::empty());
    assert(out@ =~= replaced(t@, f@, r@));
    out
}

/// Appends the characters of the string slice `s` to `out`.
pub fn append_str(out: &mut Vec<char>, s: &str)
    ensures
        final(out)@ == old(out)@ + s@,
{
    let n = s.unicode_len();
    let mut j: usize = 0;
    while j < n
        invariant
            n == s@.len(),
            j <= n,
            out@ == old(out)@ + s@.subrange(0, j as int),
        decreases n - j,
    {
        let c = s.get_char(j);
        out.push(c);
        assert(s@.subrange(0, j + 1) =~= s@.subrange(0, j as int).push(s@[j as int]));
        j += 1;
    }
    assert(s@.subrange(0, n as int) =~= s@);
}

/// Appends the characters of `piece` to `out`.
pub fn append_text(out: &mut Vec<char>, piece: &Vec<char>)
    ensures
        final(out)@ == old(out)@ + piece@,
{
    out.extend_from_slice(piece.as_slice());
}

/// Copies the character range `[a, b)` of `t` into a fresh buffer.
pub fn copy_range(t: &Vec<char>, a: usize, b: usize) -> (out: Vec<char>)
    requires
        a <= b,
        b <= t@.len(),
    ensures
        out@ == t@.subrange(a as int, b as int),
{
    let tl = t.len();
    let mut out: Vec<char> = Vec::new();
    let mut j: usize = a;
    while j < b
        invariant
            a <= j <= b,
            b <= t@.len(),
            tl == t@.len(),
            out@ == t@.subrange(a as int, j as int),
        decreases b - j,
    {
        let c = t[j];
        out.push(c);
        assert(t@.subrange(a as int, j + 1) =~= t@.subrange(a as int, j as int).push(t@[j as int]));
        j += 1;
    }
    out
}

/// The one-based line and column reached after walking the first `idx`
/// characters of `t` from position `i`, carrying the counts so far: a
/// newline opens the next line, anything else widens the column.
pub open spec fn line_col_from(t: Seq<char>, i: int, idx: int, line: int, col: int) -> (int, int)
    decreases idx - i,
{
    if i < 0 || i >= idx || i >= t.len() {
        (line, col)
    } else if t[i] == '\n' {
        line_col_from(t, i + 1, idx, line + 1, 1)
    } else {
        line_col_from(t, i + 1, idx, line, col + 1)
    }
}

/// The one-based line and column of the character at offset `idx`.
pub open spec fn line_col_at(t: Seq<char>, idx: int) -> (int, int) {
    line_col_from(t, 0, idx, 1, 1)
}

/// Computes the one-based line and column that the caret at character
/// offset `idx` stands on, for the status display.
pub fn cursor_line_col(t: &Vec<char>, idx: usize) -> (r: (usize, usize))
    requires
        idx <= t@.len(),
        t@.len() < usize::MAX,
    ensures
        (r.0 as int, r.1 as int) == line_col_at(t@, idx as int),
{
    let n = t.len();
    let mut line: usize = 1;
    let mut col: usize = 1;
    let mut i: usize = 0;
    while i < n && i < idx
        invariant
            i <= n,
            n == t@.len(),
            n < usize::MAX,
            idx <= n,
            1 <= line,
            1 <= col,
            line + col <= i + 2,
            line_col_at(t@, idx as int) == line_col_from(
                t@,
                i as int,
                idx as int,
                line as int,
                col as int,
            ),
        decreases n - i,
    {
        if t[i] == '\n' {
            line += 1;
            col = 1;
        } else {
            col += 1;
        }
        i += 1;
    }
    (line, col)
}

} // verus!
