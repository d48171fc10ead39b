use vstd::prelude::*;

use crate::key::copy_text;
use crate::text::{append_str, append_text, contains_match, copy_range, has_match, replace_all, replaced};

verus! {

/// Whitespace characters stripped from the ends of a reported line.
pub open spec fn is_space(c: char) -> bool {
    c == ' ' || c == '\t' || c == '\r' || c == '\n' || c == '\u{000B}' || c == '\u{000C}'
}

fn is_space_char(c: char) -> (r: bool)
    ensures
        r == is_space(c),
{
    c == ' ' || c == '\t' || c == '\r' || c == '\n' || c == '\u{000B}' || c == '\u{000C}'
}

/// The text with its leading whitespace removed.
pub open spec fn trim_start(s: Seq<char>) -> Seq<char>
    decreases s.len(),
{
    if s.len() > 0 && is_space(s[0]) {
        trim_start(s.skip(1))
    } else {
        s
    }
}

/// The text with its trailing whitespace removed.
pub open spec fn trim_end(s: Seq<char>) -> Seq<char>
    decreases s.len(),
{
    if s.len() > 0 && is_space(s[s.len() - 1]) {
        trim_end(s.drop_last())
    } else {
        s
    }
}

/// The text with whitespace removed from both ends.
pub open spec fn trimmed(s: Seq<char>) -> Seq<char> {
    trim_end(trim_start(s))
}

/// Removes whitespace from both ends of `s`.
pub fn trim(s: &Vec<char>) -> (out: Vec<char>)
    ensures
        out@ == trimmed(s@),
{
    let n = s.len();
    let mut a: usize = 0;
    assert(s@.skip(0) =~= s@);
    while a < n && is_space_char(s[a])
        invariant
            a <= n,
            n == s@.len(),
            trim_start(s@) == trim_start(s@.skip(a as int)),
        decreases n - a,
    {
        proof {
            assert(s@.skip(a as int)[0] == s@[a as int]);
            assert(s@.skip(a as int).skip(1) =~= s@.skip(a + 1));
        }
        a += 1;
    }
    proof {
        if a < n {
            assert(s@.skip(a as int)[0] == s@[a as int]);
        }
        assert(trim_start(s@.skip(a as int)) == s@.skip(a as int));
        assert(s@.skip(a as int) =~= s@.subrange(a as int, n as int));
    }
    let mut b: usize = n;
    while b > a && is_space_char(s[b - 1])
        invariant
            a <= b <= n,
            n == s@.len(),
            trim_start(s@) == s@.subrange(a as int, n as int),
            trim_end(s@.subrange(a as int, n as int)) == trim_end(s@.subrange(a as int, b as int)),
        decreases b,
    {
        proof {
            let cur = s@.subrange(a as int, b as int);
            assert(cur[cur.len() - 1] == s@[b - 1]);
            assert(cur.drop_last() =~= s@.subrange(a as int, b - 1));
        }
        b -= 1;
    }
    proof {
        let cur = s@.subrange(a as int, b as int);
        if b > a {
            assert(cur[cur.len() - 1] == s@[b - 1]);
        }
        assert(trim_end(cur) == cur);
    }
    copy_range(s, a, b)
}

/// The decimal digit character for `d`.
pub open spec fn dec_digit(d: nat) -> char {
    if d == 0 {
        '0'
    } else if d == 1 {
        '1'
    } else if d == 2 {
        '2'
    } else if d == 3 {
        '3'
    } else if d == 4 {
        '4'
    } else if d == 5 {
        '5'
    } else if d == 6 {
        '6'
    } else if d == 7 {
        '7'
    } else if d == 8 {
        '8'
    } else {
        '9'
    }
}

/// The decimal numeral for `n`, most significant digit first.
pub open spec fn dec_rep(n: nat) -> Seq<char>
    decreases n,
{
    if n < 10 {
        seq![dec_digit(n)]
    } else {
        dec_rep(n / 10).push(dec_digit(n % 10))
    }
}

fn dec_digit_char(d: u128) -> (c: char)
    requires
        d < 10,
    ensures
        c == dec_digit(d as nat),
{
    if d == 0 {
        '0'
    } else if d == 1 {
        '1'
    } else if d == 2 {
        '2'
    } else if d == 3 {
        '3'
    } else if d == 4 {
        '4'
    } else if d == 5 {
        '5'
    } else if d == 6 {
        '6'
    } else if d == 7 {
        '7'
    } else if d == 8 {
        '8'
    } else {
        '9'
    }
}

/// Formats `n` as a decimal numeral.
pub fn format_count(n: u128) -> (out: Vec<char>)
    ensures
        out@ == dec_rep(n as nat),
    decreases n,
{
    if n < 10 {
        let mut out: Vec<char> = Vec::new();
        out.push(dec_digit_char(n));
        assert(out@ =~= dec_rep(n as nat));
        out
    } else {
        let mut out = format_count(n / 10);
        out.push(dec_digit_char(n % 10));
        assert((n / 10) as nat == (n as nat) / 10);
        assert((n % 10) as nat == (n as nat) % 10);
        out
    }
}

/// Offset of the first newline at or after `i`, or the length of `t`.
pub open spec fn first_nl_from(t: Seq<char>, i: int) -> int
    decreases t.len() - i,
{
    if i < 0 || i >= t.len() {
        t.len() as int
    } else if t[i] == '\n' {
        i
    } else {
        first_nl_from(t, i + 1)
    }
}

/// The first newline at or after `i` lies between `i` and the end.
pub proof fn lemma_first_nl_bounds(t: Seq<char>, i: int)
    requires
        0 <= i <= t.len(),
    ensures
        i <= first_nl_from(t, i) <= t.len(),
    decreases t.len() - i,
{
    if i < t.len() && t[i] != '\n' {
        lemma_first_nl_bounds(t, i + 1);
    }
}

/// One trailing carriage return removed, as the second half of a CRLF
/// line ending.
pub open spec fn strip_cr(s: Seq<char>) -> Seq<char> {
    if s.len() > 0 && s[s.len() - 1] == '\r' {
        s.drop_last()
    } else {
        s
    }
}

/// The newline-delimited records of `t` starting at offset `i`: records are
/// split at each newline, a carriage return before the newline is dropped,
/// and a final newline ends the last record rather than opening an empty one.
pub open spec fn lines_from(t: Seq<char>, i: int) -> Seq<Seq<char>>
    decreases t.len() - i,
    via lines_from_decreases
{
    if i < 0 || i >= t.len() {
        Seq::empty()
    } else {
        let k = first_nl_from(t, i);
        if k == t.len() {
            seq![t.subrange(i, t.len() as int)]
        } else {
            seq![strip_cr(t.subrange(i, k))] + lines_from(t, k + 1)
        }
    }
}

#[via_fn]
proof fn lines_from_decreases(t: Seq<char>, i: int) {
    if 0 <= i < t.len() {
        lemma_first_nl_bounds(t, i);
    }
}

/// The records of a whole text.
pub open spec fn line_split(t: Seq<char>) -> Seq<Seq<char>> {
    lines_from(t, 0)
}

/// A text of `l` characters splits into at most `l` records.
pub proof fn lemma_lines_count(t: Seq<char>, i: int)
    requires
        0 <= i <= t.len(),
    ensures
        lines_from(t, i).len() <= t.len() - i,
    decreases t.len() - i,
{
    if i < t.len() {
        let k = first_nl_from(t, i);
        lemma_first_nl_bounds(t, i);
        if k < t.len() {
            lemma_lines_count(t, k + 1);
        }
    }
}

/// The views of a list of text buffers.
pub open spec fn texts_view(s: Seq<Vec<char>>) -> Seq<Seq<char>> {
    s.map_values(|v: Vec<char>| v@)
}

/// Offset of the first newline of `t` at or after `from`, or the length of
/// `t` when none remains.
fn find_newline(t: &Vec<char>, from: usize) -> (k: usize)
    requires
        from <= t@.len(),
    ensures
        k == first_nl_from(t@, from as int),
        from <= k <= t@.len(),
{
    let n = t.len();
    let mut j: usize = from;
    while j < n
        invariant
            from <= j <= n,
            n == t@.len(),
            first_nl_from(t@, from as int) == first_nl_from(t@, j as int),
        decreases n - j,
    {
        if t[j] == '\n' {
            assert(first_nl_from(t@, j as int) == j);
            return j;
        }
        j += 1;
    }
    assert(first_nl_from(t@, j as int) == t@.len());
    j
}

/// Splits `t` into its newline-delimited records.
pub fn split_lines(t: &Vec<char>) -> (out: Vec<Vec<char>>)
    ensures
        texts_view(out@) == line_split(t@),
{
    let n = t.len();
    let mut out: Vec<Vec<char>> = Vec::new();
    let mut j: usize = 0;
    assert(texts_view(out@) + lines_from(t@, 0) =~= lines_from(t@, 0));
    while j < n
        invariant
            j <= n,
            n == t@.len(),
            texts_view(out@) + lines_from(t@, j as int) == lines_from(t@, 0),
        decreases n - j,
    {
        let k = find_newline(t, j);
        let ghost pre = out@;
        if k < n {
            let mut line = copy_range(t, j, k);
            let ghost raw = line@;
            if line.len() > 0 && line[line.len() - 1] == '\r' {
                let _ = line.pop();
            }
            assert(line@ == strip_cr(raw));
            out.push(line);
            proof {
                assert(lines_from(t@, j as int) == seq![
                    strip_cr(t@.subrange(j as int, k as int)),
                ] + lines_from(t@, k + 1));
                assert(texts_view(out@) =~= texts_view(pre).push(strip_cr(
                    t@.subrange(j as int, k as int),
                )));
                assert(texts_view(out@) + lines_from(t@, k + 1) =~= texts_view(pre) + lines_from(
                    t@,
                    j as int,
                ));
            }
            j = k + 1;
        } else {
            let line = copy_range(t, j, n);
            out.push(line);
            proof {
                assert(lines_from(t@, j as int) =~= seq![t@.subrange(j as int, n as int)]);
                assert(texts_view(out@) =~= texts_view(pre).push(
                    t@.subrange(j as int, n as int),
                ));
                assert(texts_view(out@) + lines_from(t@, n as int) =~= texts_view(pre)
                    + lines_from(t@, j as int));
            }
            j = n;
        }
    }
    assert(lines_from(t@, j as int) =~= Seq::<Seq<char>>::empty());
    assert(texts_view(out@) =~= lines_from(t@, 0));
    out
}

/// The ghost view of one traversed file: its path and its text content.
pub struct FileView {
    pub path: Seq<char>,
    pub content: Seq<char>,
}

/// One file handed to the search engine by the directory traversal: the
/// path it was found under and the text read from it.
pub struct FileEntry {
    pub path: Vec<char>,
    pub content: Vec<char>,
}

impl View for FileEntry {
    type V = FileView;

    open spec fn view(&self) -> FileView {
        FileView { path: self.path@, content: self.content@ }
    }
}

/// The views of a list of file entries.
pub open spec fn files_view(s: Seq<FileEntry>) -> Seq<FileView> {
    s.map_values(|f: FileEntry| f@)
}

/// The report fragment for the records of one file from index `i` on: one
/// numbered, trimmed record per line that contains the query.
pub open spec fn lines_block(ls: Seq<Seq<char>>, q: Seq<char>, i: int) -> Seq<char>
    decreases ls.len() - i,
{
    if i < 0 || i >= ls.len() {
        Seq::empty()
    } else if has_match(ls[i], q) {
        "  "@ + dec_rep((i + 1) as nat) + ": "@ + trimmed(ls[i]) + "\n"@ + lines_block(
            ls,
            q,
            i + 1,
        )
    } else {
        lines_block(ls, q, i + 1)
    }
}

/// Count of the records from index `i` on that contain the query.
pub open spec fn match_line_count(ls: Seq<Seq<char>>, q: Seq<char>, i: int) -> nat
    decreases ls.len() - i,
{
    if i < 0 || i >= ls.len() {
        0
    } else if has_match(ls[i], q) {
        1 + match_line_count(ls, q, i + 1)
    } else {
        match_line_count(ls, q, i + 1)
    }
}

/// Count of the lines of one file that contain the query.
pub open spec fn file_match_count(f: FileView, q: Seq<char>) -> nat {
    match_line_count(line_split(f.content), q, 0)
}

/// The report block for one file: nothing when no line matches, else a
/// header naming the file followed by its matching lines.
pub open spec fn file_block(f: FileView, q: Seq<char>) -> Seq<char> {
    if file_match_count(f, q) == 0 {
        Seq::empty()
    } else {
        "\n"@ + f.path + ":\n"@ + lines_block(line_split(f.content), q, 0)
    }
}

/// The concatenated per-file blocks from index `i` on.
pub open spec fn report_blocks(fs: Seq<FileView>, q: Seq<char>, i: int) -> Seq<char>
    decreases fs.len() - i,
{
    if i < 0 || i >= fs.len() {
        Seq::empty()
    } else {
        file_block(fs[i], q) + report_blocks(fs, q, i + 1)
    }
}

/// Total count of matching lines over the files from index `i` on.
pub open spec fn total_matches(fs: Seq<FileView>, q: Seq<char>, i: int) -> nat
    decreases fs.len() - i,
{
    if i < 0 || i >= fs.len() {
        0
    } else {
        file_match_count(fs[i], q) + total_matches(fs, q, i + 1)
    }
}

/// Count of the files from index `i` on with at least one matching line.
pub open spec fn total_files(fs: Seq<FileView>, q: Seq<char>, i: int) -> nat
    decreases fs.len() - i,
{
    if i < 0 || i >= fs.len() {
        0
    } else if file_match_count(fs[i], q) > 0 {
        1 + total_files(fs, q, i + 1)
    } else {
        total_files(fs, q, i + 1)
    }
}

/// The trailing summary line of a report.
pub open spec fn summary_text(m: nat, k: nat) -> Seq<char> {
    "\n"@ + dec_rep(m) + " matches found in "@ + dec_rep(k) + " files."@
}

/// The full report text for one traversal outcome: the per-file blocks in
/// traversal order, then the summary of total matches and matching files.
pub open spec fn report_text(fs: Seq<FileView>, q: Seq<char>) -> Seq<char> {
    report_blocks(fs, q, 0) + summary_text(total_matches(fs, q, 0), total_files(fs, q, 0))
}

/// Builds the report block for one file and counts its matching lines.
fn file_report(f: &FileEntry, q: &Vec<char>) -> (r: (Vec<char>, usize))
    requires
        q@.len() > 0,
    ensures
        r.0@ == file_block(f@, q@),
        r.1 == file_match_count(f@, q@),
{
    let lines = split_lines(&f.content);
    let ghost ls = line_split(f@.content);
    let nl = lines.len();
    let mut lpart: Vec<char> = Vec::new();
    let mut count: usize = 0;
    let mut j: usize = 0;
    while j < nl
        invariant
            q@.len() > 0,
            nl == ls.len(),
            ls == texts_view(lines@),
            ls == line_split(f@.content),
            j <= nl,
            count <= j,
            count + match_line_count(ls, q@, j as int) == match_line_count(ls, q@, 0),
            lpart@ + lines_block(ls, q@, j as int) == lines_block(ls, q@, 0),
        decreases nl - j,
    {
        assert(lines@[j as int]@ == ls[j as int]);
        let ghost pre = lpart@;
        if contains_match(&lines[j], q) {
            append_str(&mut lpart, "  ");
            let num = format_count((j as u128) + 1);
            append_text(&mut lpart, &num);
            append_str(&mut lpart, ": ");
            let tline = trim(&lines[j]);
            append_text(&mut lpart, &tline);
            append_str(&mut lpart, "\n");
            count += 1;
            proof {
                assert(lines_block(ls, q@, j as int) == "  "@ + dec_rep((j + 1) as nat) + ": "@
                    + trimmed(ls[j as int]) + "\n"@ + lines_block(ls, q@, j + 1));
                assert(lpart@ + lines_block(ls, q@, j + 1) =~= pre + lines_block(
                    ls,
                    q@,
                    j as int,
                ));
            }
        }
        j += 1;
    }
    if count == 0 {
        let head: Vec<char> = Vec::new();
        assert(head@ =~= file_block(f@, q@));
        (head, 0)
    } else {
        let mut head: Vec<char> = Vec::new();
        append_str(&mut head, "\n");
        append_text(&mut head, &f.path);
        append_str(&mut head, ":\n");
        append_text(&mut head, &lpart);
        assert(head@ =~= file_block(f@, q@));
        (head, count)
    }
}

/// Builds the full report for the files found by one traversal.
pub fn search_report(files: &Vec<FileEntry>, q: &Vec<char>) -> (out: Vec<char>)
    requires
        q@.len() > 0,
    ensures
        out@ == report_text(files_view(files@), q@),
{
    let ghost fv = files_view(files@);
    let n = files.len();
    let mut body: Vec<char> = Vec::new();
    let mut mcount: u128 = 0;
    let mut fcount: usize = 0;
    let mut i: usize = 0;
    while i < n
        invariant
            q@.len() > 0,
            n == files@.len(),
            fv == files_view(files@),
            i <= n,
            fcount <= i,
            mcount <= (i as int) * 0x1_0000_0000_0000_0000,
            mcount + total_matches(fv, q@, i as int) == total_matches(fv, q@, 0),
            fcount + total_files(fv, q@, i as int) == total_files(fv, q@, 0),
            body@ + report_blocks(fv, q@, i as int) == report_blocks(fv, q@, 0),
        decreases n - i,
    {
        assert(files@[i as int]@ == fv[i as int]);
        let (block, cnt) = file_report(&files[i], q);
        let ghost pre = body@;
        append_text(&mut body, &block);
        if cnt > 0 {
            fcount += 1;
        }
        proof {
            let b: int = 0x1_0000_0000_0000_0000;
            assert(cnt as int <= b - 1);
            assert((i as int) * b + b == (i as int + 1) * b) by (nonlinear_arith);
            assert((i as int + 1) * b <= b * b) by (nonlinear_arith)
                requires
                    0 <= i as int + 1 <= b,
            ;
            assert(mcount as int + cnt as int <= b * b - 1);
            assert(b * b - 1 == u128::MAX as int);
        }
        mcount = mcount + cnt as u128;
        proof {
            assert(body@ + report_blocks(fv, q@, i + 1) =~= pre + report_blocks(fv, q@, i as int));
        }
        i += 1;
    }
    append_str(&mut body, "\n");
    let mnum = format_count(mcount);
    append_text(&mut body, &mnum);
    append_str(&mut body, " matches found in ");
    let fnum = format_count(fcount as u128);
    append_text(&mut body, &fnum);
    append_str(&mut body, " files.");
    proof {
        assert(body@ =~= report_text(fv, q@));
    }
    body
}

/// The rewrite for each traversed file that contains the query, in
/// traversal order: its path paired with the text after every
/// occurrence is replaced.
pub open spec fn replace_jobs_view(
    fs: Seq<FileView>,
    q: Seq<char>,
    rq: Seq<char>,
    i: int,
) -> Seq<FileView>
    decreases fs.len() - i,
{
    if i < 0 || i >= fs.len() {
        Seq::empty()
    } else if has_match(fs[i].content, q) {
        seq![FileView { path: fs[i].path, content: replaced(fs[i].content, q, rq) }]
            + replace_jobs_view(fs, q, rq, i + 1)
    } else {
        replace_jobs_view(fs, q, rq, i + 1)
    }
}

/// Computes the rewrites that replacing `q` with `rq` performs over the
/// traversed files: one updated entry per file that contains the query;
/// the others are left alone.
pub fn replace_in_files(files: &Vec<FileEntry>, q: &Vec<char>, rq: &Vec<char>) -> (out: Vec<
    FileEntry,
>)
    requires
        q@.len() > 0,
    ensures
        files_view(out@) == replace_jobs_view(files_view(files@), q@, rq@, 0),
{
    let ghost fv = files_view(files@);
    let n = files.len();
    let mut out: Vec<FileEntry> = Vec::new();
    let mut i: usize = 0;
    assert(files_view(out@) + replace_jobs_view(fv, q@, rq@, 0) =~= replace_jobs_view(
        fv,
        q@,
        rq@,
        0,
    ));
    while i < n
        invariant
            q@.len() > 0,
            n == files@.len(),
            fv == files_view(files@),
            i <= n,
            files_view(out@) + replace_jobs_view(fv, q@, rq@, i as int) == replace_jobs_view(
                fv,
                q@,
                rq@,
                0,
            ),
        decreases n - i,
    {
        assert(files@[i as int]@ == fv[i as int]);
        let ghost pre = out@;
        if contains_match(&files[i].content, q) {
            let newtext = replace_all(&files[i].content, q, rq);
            out.push(FileEntry { path: copy_text(&files[i].path), content: newtext });
            proof {
                assert(files_view(out@) =~= files_view(pre).push(
                    FileView { path: fv[i as int].path, content: replaced(fv[i as int].content, q@, rq@) },
                ));
                assert(files_view(out@) + replace_jobs_view(fv, q@, rq@, i + 1) =~= files_view(pre)
                    + replace_jobs_view(fv, q@, rq@, i as int));
            }
        }
        i += 1;
    }
    assert(files_view(out@) =~= replace_jobs_view(fv, q@, rq@, 0));
    out
}

} // verus!
