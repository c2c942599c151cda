//! Longest-common-subsequence line diff: the memo-table construction and
//! the backward walk that turns the table into an ordered sequence of
//! added / removed / unchanged line annotations.

use crate::grid::Grid;
use vstd::prelude::*;

verus! {

/// The views of a sequence of lines: each line as its character sequence.
pub open spec fn line_views(s: Seq<String>) -> Seq<Seq<char>> {
    Seq::new(s.len(), |k: int| s[k]@)
}

/// Length of the longest common subsequence of `a` and `b`, by the
/// standard recurrence on the last elements.
pub open spec fn lcs_len(a: Seq<Seq<char>>, b: Seq<Seq<char>>) -> nat
    decreases a.len() + b.len(),
{
    if a.len() == 0 || b.len() == 0 {
        0
    } else if a.last() == b.last() {
        lcs_len(a.drop_last(), b.drop_last()) + 1
    } else {
        let with_a = lcs_len(a, b.drop_last());
        let with_b = lcs_len(a.drop_last(), b);
        if with_a >= with_b {
            with_a
        } else {
            with_b
        }
    }
}

/// A common subsequence is never longer than either input.
pub proof fn lemma_lcs_len_bound(a: Seq<Seq<char>>, b: Seq<Seq<char>>)
    ensures
        lcs_len(a, b) <= a.len(),
        lcs_len(a, b) <= b.len(),
    decreases a.len() + b.len(),
{
    if a.len() == 0 || b.len() == 0 {
    } else if a.last() == b.last() {
        lemma_lcs_len_bound(a.drop_last(), b.drop_last());
    } else {
        lemma_lcs_len_bound(a, b.drop_last());
        lemma_lcs_len_bound(a.drop_last(), b);
    }
}

/// Removing the last line of either input lowers the LCS length by at
/// most one.
proof fn lemma_lcs_len_step_bound(a: Seq<Seq<char>>, b: Seq<Seq<char>>)
    ensures
        a.len() > 0 ==> lcs_len(a, b) <= lcs_len(a.drop_last(), b) + 1,
        b.len() > 0 ==> lcs_len(a, b) <= lcs_len(a, b.drop_last()) + 1,
    decreases a.len() + b.len(),
{
    if a.len() == 0 || b.len() == 0 {
    } else if a.last() == b.last() {
        lemma_lcs_len_monotone(a.drop_last(), b);
        lemma_lcs_len_monotone(a, b.drop_last());
    } else {
        lemma_lcs_len_step_bound(a, b.drop_last());
        lemma_lcs_len_step_bound(a.drop_last(), b);
        lemma_lcs_len_monotone(a.drop_last(), b);
        lemma_lcs_len_monotone(a, b.drop_last());
    }
}

/// Dropping the last line of either input never raises the LCS length.
pub proof fn lemma_lcs_len_monotone(a: Seq<Seq<char>>, b: Seq<Seq<char>>)
    ensures
        a.len() > 0 ==> lcs_len(a.drop_last(), b) <= lcs_len(a, b),
        b.len() > 0 ==> lcs_len(a, b.drop_last()) <= lcs_len(a, b),
    decreases a.len() + b.len(),
{
    if a.len() == 0 || b.len() == 0 {
    } else if a.last() == b.last() {
        lemma_lcs_len_step_bound(a.drop_last(), b);
        lemma_lcs_len_step_bound(a, b.drop_last());
    } else {
    }
}

/// On prefixes, `lcs_len` satisfies the memo-table recurrence: the cell
/// for `(i, j)` follows from its up, left and up-left neighbours.
proof fn lemma_lcs_prefix_step(a: Seq<Seq<char>>, b: Seq<Seq<char>>, i: int, j: int)
    requires
        1 <= i <= a.len(),
        1 <= j <= b.len(),
    ensures
        a[i - 1] == b[j - 1] ==> lcs_len(a.take(i), b.take(j)) == lcs_len(
            a.take(i - 1),
            b.take(j - 1),
        ) + 1,
        a[i - 1] != b[j - 1] ==> lcs_len(a.take(i), b.take(j)) == if lcs_len(
            a.take(i),
            b.take(j - 1),
        ) >= lcs_len(a.take(i - 1), b.take(j)) {
            lcs_len(a.take(i), b.take(j - 1))
        } else {
            lcs_len(a.take(i - 1), b.take(j))
        },
{
    let ai = a.take(i);
    let bj = b.take(j);
    assert(ai.last() == a[i - 1]);
    assert(bj.last() == b[j - 1]);
    assert(ai.drop_last() =~= a.take(i - 1));
    assert(bj.drop_last() =~= b.take(j - 1));
}

/// The memo table for a diff of `a` against `b`: one row per prefix of
/// `a` and one column per prefix of `b`, each cell holding the LCS
/// length of those two prefixes.
pub open spec fn is_lcs_table(g: Grid, a: Seq<Seq<char>>, b: Seq<Seq<char>>) -> bool {
    &&& g.wf()
    &&& g.spec_rows() == a.len() + 1
    &&& g.spec_cols() == b.len() + 1
    &&& forall|i: int, j: int|
        0 <= i <= a.len() && 0 <= j <= b.len() ==> g.cell(i, j) == lcs_len(a.take(i), b.take(j))
}

/// Monotonicity of the memo table: each cell is at least its up
/// neighbour and at least its left neighbour.
pub proof fn lemma_table_monotone(g: Grid, a: Seq<Seq<char>>, b: Seq<Seq<char>>, i: int, j: int)
    requires
        is_lcs_table(g, a, b),
        0 <= i <= a.len(),
        0 <= j <= b.len(),
    ensures
        i > 0 ==> g.cell(i - 1, j) <= g.cell(i, j),
        j > 0 ==> g.cell(i, j - 1) <= g.cell(i, j),
{
    lemma_lcs_len_monotone(a.take(i), b.take(j));
    if i > 0 {
        assert(a.take(i).drop_last() =~= a.take(i - 1));
    }
    if j > 0 {
        assert(b.take(j).drop_last() =~= b.take(j - 1));
    }
}

/// `s` appears inside `t`, in order though not necessarily contiguously.
pub open spec fn is_subseq_of(s: Seq<Seq<char>>, t: Seq<Seq<char>>) -> bool
    decreases s.len() + t.len(),
{
    if s.len() == 0 {
        true
    } else if t.len() == 0 {
        false
    } else if s.last() == t.last() {
        is_subseq_of(s.drop_last(), t.drop_last())
    } else {
        is_subseq_of(s, t.drop_last())
    }
}

/// A subsequence stays one when its own last element is dropped.
proof fn lemma_subseq_drop_inner(s: Seq<Seq<char>>, t: Seq<Seq<char>>)
    requires
        s.len() > 0,
        is_subseq_of(s, t),
    ensures
        is_subseq_of(s.drop_last(), t),
    decreases s.len() + t.len(),
{
    let s1 = s.drop_last();
    if s1.len() == 0 {
    } else if s.last() == t.last() {
        if s1.last() == t.last() {
            lemma_subseq_drop_inner(s1, t.drop_last());
        }
    } else {
        lemma_subseq_drop_inner(s, t.drop_last());
        if s1.last() == t.last() {
            lemma_subseq_drop_inner(s1, t.drop_last());
        }
    }
}

/// A subsequence of a prefix is a subsequence of the whole.
proof fn lemma_subseq_grow_outer(s: Seq<Seq<char>>, t: Seq<Seq<char>>)
    requires
        t.len() > 0,
        is_subseq_of(s, t.drop_last()),
    ensures
        is_subseq_of(s, t),
{
    if s.len() > 0 && s.last() == t.last() {
        lemma_subseq_drop_inner(s, t.drop_last());
    }
}

/// No common subsequence of `a` and `b` is longer than `lcs_len(a, b)`.
pub proof fn lemma_lcs_len_optimal(a: Seq<Seq<char>>, b: Seq<Seq<char>>, c: Seq<Seq<char>>)
    requires
        is_subseq_of(c, a),
        is_subseq_of(c, b),
    ensures
        c.len() <= lcs_len(a, b),
    decreases a.len() + b.len(),
{
    if c.len() == 0 {
    } else if a.last() == b.last() {
        if c.last() == a.last() {
            lemma_lcs_len_optimal(a.drop_last(), b.drop_last(), c.drop_last());
        } else {
            lemma_lcs_len_optimal(a.drop_last(), b, c);
            lemma_lcs_len_monotone(a, b);
        }
    } else {
        if c.last() != a.last() {
            lemma_lcs_len_optimal(a.drop_last(), b, c);
        } else {
            lemma_lcs_len_optimal(a, b.drop_last(), c);
        }
    }
}

/// One longest common subsequence of `a` and `b`, chosen by the same
/// tie-break as the reconstruction: on a tie the walk drops the last
/// line of `b` first.
pub open spec fn lcs_witness(a: Seq<Seq<char>>, b: Seq<Seq<char>>) -> Seq<Seq<char>>
    decreases a.len() + b.len(),
{
    if a.len() == 0 || b.len() == 0 {
        Seq::empty()
    } else if a.last() == b.last() {
        lcs_witness(a.drop_last(), b.drop_last()).push(a.last())
    } else if lcs_len(a, b.drop_last()) >= lcs_len(a.drop_last(), b) {
        lcs_witness(a, b.drop_last())
    } else {
        lcs_witness(a.drop_last(), b)
    }
}

/// `lcs_len(a, b)` is achieved: `lcs_witness(a, b)` is a common
/// subsequence of `a` and `b` of exactly that length. Together with
/// `lemma_lcs_len_optimal` this makes `lcs_len` the true LCS length.
pub proof fn lemma_lcs_witness(a: Seq<Seq<char>>, b: Seq<Seq<char>>)
    ensures
        is_subseq_of(lcs_witness(a, b), a),
        is_subseq_of(lcs_witness(a, b), b),
        lcs_witness(a, b).len() == lcs_len(a, b),
    decreases a.len() + b.len(),
{
    if a.len() == 0 || b.len() == 0 {
    } else if a.last() == b.last() {
        lemma_lcs_witness(a.drop_last(), b.drop_last());
        let w = lcs_witness(a, b);
        assert(w.drop_last() =~= lcs_witness(a.drop_last(), b.drop_last()));
    } else if lcs_len(a, b.drop_last()) >= lcs_len(a.drop_last(), b) {
        lemma_lcs_witness(a, b.drop_last());
        lemma_subseq_grow_outer(lcs_witness(a, b.drop_last()), b);
    } else {
        lemma_lcs_witness(a.drop_last(), b);
        lemma_subseq_grow_outer(lcs_witness(a.drop_last(), b), a);
    }
}

/// Builds the LCS memo table for the two line sequences: a grid with
/// `seq1.len() + 1` rows and `seq2.len() + 1` columns whose cell `(i, j)`
/// holds the LCS length of the first `i` lines of `seq1` and the first
/// `j` lines of `seq2`. Row 0 and column 0 are therefore zero.
pub fn lcs(seq1: &Vec<String>, seq2: &Vec<String>) -> (g: Grid)
    requires
        (seq1.len() + 1) * (seq2.len() + 1) <= usize::MAX,
    ensures
        is_lcs_table(g, line_views(seq1@), line_views(seq2@)),
        forall|j: int| 0 <= j <= seq2.len() ==> g.cell(0, j) == 0,
        forall|i: int| 0 <= i <= seq1.len() ==> g.cell(i, 0) == 0,
{
    let ghost a = line_views(seq1@);
    let ghost b = line_views(seq2@);
    let seq_1_len: usize = seq1.len();
    let seq_2_len: usize = seq2.len();
    proof {
        assert(seq_1_len + 1 <= (seq_1_len + 1) * (seq_2_len + 1) && seq_2_len + 1 <= (seq_1_len
            + 1) * (seq_2_len + 1)) by (nonlinear_arith)
            requires
                seq_1_len >= 0 && seq_2_len >= 0,
        ;
    }
    let mut grid = Grid::new(seq_1_len + 1, seq_2_len + 1);
    proof {
        assert forall|i2: int, j2: int| 0 <= i2 <= seq_1_len && 0 <= j2 <= seq_2_len && (i2 == 0
            || j2 == 0) implies lcs_len(a.take(i2), b.take(j2)) == 0 by {
            assert(a.take(i2).len() == i2);
            assert(b.take(j2).len() == j2);
        }
    }
    let mut i: usize = 0;
    while i < seq_1_len
        invariant
            i <= seq_1_len,
            seq_1_len == seq1.len(),
            seq_2_len == seq2.len(),
            a == line_views(seq1@),
            b == line_views(seq2@),
            grid.wf(),
            grid.spec_rows() == seq_1_len + 1,
            grid.spec_cols() == seq_2_len + 1,
            forall|i2: int, j2: int|
                0 <= i2 <= seq_1_len && 0 <= j2 <= seq_2_len && (i2 <= i || j2 == 0)
                    ==> grid.cell(i2, j2) == lcs_len(a.take(i2), b.take(j2)),
        decreases seq_1_len - i,
    {
        let mut j: usize = 0;
        while j < seq_2_len
            invariant
                i < seq_1_len,
                j <= seq_2_len,
                seq_1_len == seq1.len(),
                seq_2_len == seq2.len(),
                a == line_views(seq1@),
                b == line_views(seq2@),
                grid.wf(),
                grid.spec_rows() == seq_1_len + 1,
                grid.spec_cols() == seq_2_len + 1,
                forall|i2: int, j2: int|
                    0 <= i2 <= seq_1_len && 0 <= j2 <= seq_2_len && (i2 <= i || j2 == 0 || (i2 == i
                        + 1 && j2 <= j))
                        ==> grid.cell(i2, j2) == lcs_len(a.take(i2), b.take(j2)),
            decreases seq_2_len - j,
        {
            proof {
                lemma_lcs_prefix_step(a, b, i + 1, j + 1);
                lemma_lcs_len_bound(a.take(i as int), b.take(j as int));
                lemma_lcs_len_bound(a.take(i + 1), b.take(j as int));
                lemma_lcs_len_bound(a.take(i as int), b.take(j + 1));
            }
            let next: usize = if seq1[i] == seq2[j] {
                let up_left: usize = grid.get(i, j).unwrap();
                up_left + 1
            } else {
                let left: usize = grid.get(i + 1, j).unwrap();
                let up: usize = grid.get(i, j + 1).unwrap();
                if left >= up {
                    left
                } else {
                    up
                }
            };
            grid.set(i + 1, j + 1, next).unwrap();
            j = j + 1;
        }
        i = i + 1;
    }
    grid
}

/// A line of diff output, tagged by where it comes from: present in both
/// inputs, only in the second, or only in the first.
#[derive(Debug, PartialEq, Eq)]
pub enum DiffLine {
    Unchanged(String),
    Added(String),
    Removed(String),
}

/// The mathematical value of a tagged diff line: the tag together with
/// the line's characters.
pub enum DiffTag {
    Unchanged(Seq<char>),
    Added(Seq<char>),
    Removed(Seq<char>),
}

impl View for DiffLine {
    type V = DiffTag;

    closed spec fn view(&self) -> DiffTag {
        match self {
            DiffLine::Unchanged(l) => DiffTag::Unchanged(l@),
            DiffLine::Added(l) => DiffTag::Added(l@),
            DiffLine::Removed(l) => DiffTag::Removed(l@),
        }
    }
}

/// The views of a sequence of diff lines.
pub open spec fn tag_views(s: Seq<DiffLine>) -> Seq<DiffTag> {
    Seq::new(s.len(), |k: int| s[k]@)
}

/// The diff of the first `i` lines of `a` against the first `j` lines of
/// `b`: the backward walk over the memo table, written directly over
/// `lcs_len`, which the table's cells equal. On a tie between the two
/// candidate predecessor cells the walk prefers the added line, so the
/// output is fully determined by the inputs.
pub open spec fn spec_diff(a: Seq<Seq<char>>, b: Seq<Seq<char>>, i: int, j: int) -> Seq<DiffTag>
    decreases (if i >= 0 { i } else { 0 }) + (if j >= 0 { j } else { 0 }),
{
    if i <= 0 && j <= 0 {
        Seq::empty()
    } else if i > 0 && j > 0 && a[i - 1] == b[j - 1] {
        spec_diff(a, b, i - 1, j - 1).push(DiffTag::Unchanged(a[i - 1]))
    } else if j > 0 && (i <= 0 || lcs_len(a.take(i), b.take(j - 1)) >= lcs_len(
        a.take(i - 1),
        b.take(j),
    )) {
        spec_diff(a, b, i, j - 1).push(DiffTag::Added(b[j - 1]))
    } else {
        spec_diff(a, b, i - 1, j).push(DiffTag::Removed(a[i - 1]))
    }
}

/// Walks the memo table backward from `(i, j)` and returns the diff of
/// the first `i` lines of `lines1` against the first `j` lines of
/// `lines2`, in forward document order.
pub fn reconstruct(
    table: &Grid,
    lines1: &Vec<String>,
    lines2: &Vec<String>,
    i: usize,
    j: usize,
) -> (out: Vec<DiffLine>)
    requires
        is_lcs_table(*table, line_views(lines1@), line_views(lines2@)),
        i <= lines1.len(),
        j <= lines2.len(),
    ensures
        tag_views(out@) == spec_diff(line_views(lines1@), line_views(lines2@), i as int, j as int),
    decreases i + j,
{
    let ghost a = line_views(lines1@);
    let ghost b = line_views(lines2@);
    proof {
        if j > 0 {
            lemma_lcs_len_bound(a.take(i as int), b.take(j as int - 1));
        }
        if i > 0 {
            lemma_lcs_len_bound(a.take(i as int - 1), b.take(j as int));
        }
    }
    if i == 0 && j == 0 {
        let out: Vec<DiffLine> = Vec::new();
        proof {
            assert(tag_views(out@) =~= spec_diff(a, b, 0, 0));
        }
        out
    } else if i > 0 && j > 0 && lines1[i - 1] == lines2[j - 1] {
        let mut out = reconstruct(table, lines1, lines2, i - 1, j - 1);
        out.push(DiffLine::Unchanged(lines1[i - 1].clone()));
        proof {
            assert(tag_views(out@) =~= spec_diff(a, b, i as int, j as int));
        }
        out
    } else if j > 0 && (i == 0 || table.get(i, j - 1).unwrap() >= table.get(i - 1, j).unwrap()) {
        let mut out = reconstruct(table, lines1, lines2, i, j - 1);
        out.push(DiffLine::Added(lines2[j - 1].clone()));
        proof {
            assert(tag_views(out@) =~= spec_diff(a, b, i as int, j as int));
        }
        out
    } else {
        let mut out = reconstruct(table, lines1, lines2, i - 1, j);
        out.push(DiffLine::Removed(lines1[i - 1].clone()));
        proof {
            assert(tag_views(out@) =~= spec_diff(a, b, i as int, j as int));
        }
        out
    }
}

/// The corner cell of the memo table is the true LCS length of the two
/// inputs: some common subsequence has that length, and none is longer.
pub proof fn lemma_table_corner_is_lcs(g: Grid, a: Seq<Seq<char>>, b: Seq<Seq<char>>)
    requires
        is_lcs_table(g, a, b),
    ensures
        g.cell(a.len() as int, b.len() as int) == lcs_len(a, b),
        is_subseq_of(lcs_witness(a, b), a),
        is_subseq_of(lcs_witness(a, b), b),
        lcs_witness(a, b).len() == lcs_len(a, b),
        forall|c: Seq<Seq<char>>|
            is_subseq_of(c, a) && is_subseq_of(c, b) ==> c.len() <= lcs_len(a, b),
{
    assert(a.take(a.len() as int) =~= a);
    assert(b.take(b.len() as int) =~= b);
    lemma_lcs_witness(a, b);
    assert forall|c: Seq<Seq<char>>|
        is_subseq_of(c, a) && is_subseq_of(c, b) implies c.len() <= lcs_len(a, b) by {
        lemma_lcs_len_optimal(a, b, c);
    }
}

/// The lines a diff takes from the first input: the payloads of its
/// `Unchanged` and `Removed` tags, in order.
pub open spec fn a_lines(s: Seq<DiffTag>) -> Seq<Seq<char>>
    decreases s.len(),
{
    if s.len() == 0 {
        Seq::empty()
    } else {
        let rest = a_lines(s.drop_last());
        match s.last() {
            DiffTag::Unchanged(l) => rest.push(l),
            DiffTag::Removed(l) => rest.push(l),
            DiffTag::Added(_) => rest,
        }
    }
}

/// The lines a diff takes from the second input: the payloads of its
/// `Unchanged` and `Added` tags, in order.
pub open spec fn b_lines(s: Seq<DiffTag>) -> Seq<Seq<char>>
    decreases s.len(),
{
    if s.len() == 0 {
        Seq::empty()
    } else {
        let rest = b_lines(s.drop_last());
        match s.last() {
            DiffTag::Unchanged(l) => rest.push(l),
            DiffTag::Added(l) => rest.push(l),
            DiffTag::Removed(_) => rest,
        }
    }
}

/// The diff accounts for every input line exactly once: its `Unchanged`
/// and `Removed` tags carry the first `i` lines of `a` in order, and its
/// `Unchanged` and `Added` tags carry the first `j` lines of `b` in
/// order. In particular the diff holds exactly `i` entries from the
/// first input and exactly `j` from the second.
pub proof fn lemma_diff_covers(a: Seq<Seq<char>>, b: Seq<Seq<char>>, i: int, j: int)
    requires
        0 <= i <= a.len(),
        0 <= j <= b.len(),
    ensures
        a_lines(spec_diff(a, b, i, j)) == a.take(i),
        b_lines(spec_diff(a, b, i, j)) == b.take(j),
    decreases i + j,
{
    let d = spec_diff(a, b, i, j);
    if i == 0 && j == 0 {
        assert(a_lines(d) =~= a.take(0));
        assert(b_lines(d) =~= b.take(0));
    } else if i > 0 && j > 0 && a[i - 1] == b[j - 1] {
        lemma_diff_covers(a, b, i - 1, j - 1);
        assert(d.drop_last() =~= spec_diff(a, b, i - 1, j - 1));
        assert(a_lines(d) =~= a.take(i));
        assert(b_lines(d) =~= b.take(j));
    } else if j > 0 && (i <= 0 || lcs_len(a.take(i), b.take(j - 1)) >= lcs_len(
        a.take(i - 1),
        b.take(j),
    )) {
        lemma_diff_covers(a, b, i, j - 1);
        assert(d.drop_last() =~= spec_diff(a, b, i, j - 1));
        assert(a_lines(d) =~= a.take(i));
        assert(b_lines(d) =~= b.take(j));
    } else {
        lemma_diff_covers(a, b, i - 1, j);
        assert(d.drop_last() =~= spec_diff(a, b, i - 1, j));
        assert(a_lines(d) =~= a.take(i));
        assert(b_lines(d) =~= b.take(j));
    }
}

/// Diffing a sequence against itself yields an all-`Unchanged` diff that
/// repeats the input in order, with no added or removed entries.
pub proof fn lemma_diff_self(a: Seq<Seq<char>>, k: int)
    requires
        0 <= k <= a.len(),
    ensures
        spec_diff(a, a, k, k) == Seq::new(k as nat, |t: int| DiffTag::Unchanged(a[t])),
    decreases k,
{
    if k == 0 {
        assert(spec_diff(a, a, 0, 0) =~= Seq::new(0, |t: int| DiffTag::Unchanged(a[t])));
    } else {
        lemma_diff_self(a, k - 1);
        assert(spec_diff(a, a, k, k) =~= Seq::new(k as nat, |t: int| DiffTag::Unchanged(a[t])));
    }
}

/// Diffs `lines1` against `lines2`: builds the memo table and
/// reconstructs the full tagged line sequence.
pub fn diff(lines1: &Vec<String>, lines2: &Vec<String>) -> (out: Vec<DiffLine>)
    requires
        (lines1.len() + 1) * (lines2.len() + 1) <= usize::MAX,
    ensures
        tag_views(out@) == spec_diff(
            line_views(lines1@),
            line_views(lines2@),
            lines1.len() as int,
            lines2.len() as int,
        ),
{
    let table = lcs(lines1, lines2);
    reconstruct(&table, lines1, lines2, lines1.len(), lines2.len())
}

} // verus!
