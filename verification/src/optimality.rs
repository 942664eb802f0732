//! What the tables mean: the scores are the best that any alignment attains,
//! and the traceback lists the alignments that attain them.

use crate::algorithms::{
    cell_dirs, cell_score, is_direction_table, is_score_table, Algorithm, Direction,
};
use crate::alignment_laws::{
    gap_free, lemma_alignment_parts, lemma_empty_is_listed, lemma_listed_part,
    lemma_step_is_listed, lemma_without_gaps_push, part_of, source_cell, step_column, step_from,
    without_gaps,
};
use crate::maxima::{in_grid, is_countable, lemma_max_cells};
use crate::reconstruction::{alignments_at, alignments_from, grid_max, has_tag, max_cells};
use crate::table_laws::{lemma_boundary_tags, lemma_recorded_branches};
use vstd::prelude::*;

verus! {

/// The score of one column: the gap penalty where either row has a gap, else
/// the substitution score of the two symbols.
pub open spec fn column_score(x: char, y: char, gap: int, score: spec_fn(char, char) -> int) -> int {
    if x == '-' || y == '-' {
        gap
    } else {
        score(x, y)
    }
}

/// The score of an alignment: the sum of the scores of its columns.
pub open spec fn alignment_score(
    p: (Seq<char>, Seq<char>),
    gap: int,
    score: spec_fn(char, char) -> int,
) -> int
    decreases p.0.len(),
{
    if p.0.len() == 0 || p.1.len() == 0 {
        0
    } else {
        alignment_score((p.0.drop_last(), p.1.drop_last()), gap, score) + column_score(
            p.0.last(),
            p.1.last(),
            gap,
            score,
        )
    }
}

/// `p` aligns `u` with `v`: its rows have one length, no column holds two
/// gaps, and without the gap markers the rows are `u` and `v`.
pub open spec fn aligns(p: (Seq<char>, Seq<char>), u: Seq<char>, v: Seq<char>) -> bool {
    &&& p.0.len() == p.1.len()
    &&& forall|c: int| 0 <= c < p.0.len() ==> !(#[trigger] p.0[c] == '-' && p.1[c] == '-')
    &&& without_gaps(p.0) == u
    &&& without_gaps(p.1) == v
}

/// `p` aligns the symbols of `s1` from `k` up to `i` with the symbols of `s2`
/// from `l` up to `j`.
pub open spec fn aligns_stretches(
    p: (Seq<char>, Seq<char>),
    s1: Seq<char>,
    s2: Seq<char>,
    k: int,
    i: int,
    l: int,
    j: int,
) -> bool {
    &&& 0 <= k <= i <= s1.len()
    &&& 0 <= l <= j <= s2.len()
    &&& aligns(p, s1.subrange(k, i), s2.subrange(l, j))
}

/// An alignment without columns aligns nothing with nothing.
pub proof fn lemma_aligns_nothing(p: (Seq<char>, Seq<char>), u: Seq<char>, v: Seq<char>)
    requires
        aligns(p, u, v),
        p.0.len() == 0,
    ensures
        u.len() == 0,
        v.len() == 0,
{
}

/// The last column of an alignment, and what the columns before it align.
pub proof fn lemma_last_column(p: (Seq<char>, Seq<char>), u: Seq<char>, v: Seq<char>)
    requires
        aligns(p, u, v),
        p.0.len() > 0,
    ensures
        p.0.last() != '-' ==> u.len() > 0 && u.last() == p.0.last(),
        p.1.last() != '-' ==> v.len() > 0 && v.last() == p.1.last(),
        p.0.last() != '-' || p.1.last() != '-',
        aligns(
            (p.0.drop_last(), p.1.drop_last()),
            if p.0.last() == '-' {
                u
            } else {
                u.drop_last()
            },
            if p.1.last() == '-' {
                v
            } else {
                v.drop_last()
            },
        ),
{
    let a = p.0.drop_last();
    let b = p.1.drop_last();
    assert(p.0[p.0.len() - 1] == p.0.last());
    if p.0.last() != '-' {
        assert(without_gaps(a).push(p.0.last()).drop_last() =~= without_gaps(a));
    }
    if p.1.last() != '-' {
        assert(without_gaps(b).push(p.1.last()).drop_last() =~= without_gaps(b));
    }
    assert forall|c: int| 0 <= c < a.len() implies !(#[trigger] a[c] == '-' && b[c] == '-') by {
        assert(a[c] == p.0[c] && b[c] == p.1[c]);
    }
}

/// An alignment with one more column: what it aligns and what it scores.
pub proof fn lemma_one_more_column(
    q: (Seq<char>, Seq<char>),
    u: Seq<char>,
    v: Seq<char>,
    x: char,
    y: char,
    gap: int,
    score: spec_fn(char, char) -> int,
)
    requires
        aligns(q, u, v),
        x != '-' || y != '-',
    ensures
        aligns(
            (q.0.push(x), q.1.push(y)),
            if x == '-' {
                u
            } else {
                u.push(x)
            },
            if y == '-' {
                v
            } else {
                v.push(y)
            },
        ),
        alignment_score((q.0.push(x), q.1.push(y)), gap, score) == alignment_score(q, gap, score)
            + column_score(x, y, gap, score),
{
    lemma_without_gaps_push(q.0, x);
    lemma_without_gaps_push(q.1, y);
    assert(q.0.push(x).drop_last() =~= q.0);
    assert(q.1.push(y).drop_last() =~= q.1);
    assert((q.0.push(x).drop_last(), q.1.push(y).drop_last()) == q);
}

/// No global alignment of two prefixes scores more than their cell of the
/// score table.
pub proof fn lemma_global_score_bounds(
    s1: Seq<char>,
    s2: Seq<char>,
    gap: int,
    score: spec_fn(char, char) -> int,
    i: int,
    j: int,
    p: (Seq<char>, Seq<char>),
)
    requires
        aligns_stretches(p, s1, s2, 0, i, 0, j),
    ensures
        alignment_score(p, gap, score) <= cell_score(
            s1,
            s2,
            gap,
            score,
            Algorithm::NeedlemanWunsch,
            i,
            j,
        ),
    decreases p.0.len(),
{
    let mode = Algorithm::NeedlemanWunsch;
    let u = s1.subrange(0, i);
    let v = s2.subrange(0, j);
    if p.0.len() == 0 {
        lemma_aligns_nothing(p, u, v);
        assert(gap * 0 == 0) by (nonlinear_arith);
    } else {
        lemma_last_column(p, u, v);
        let x = p.0.last();
        let y = p.1.last();
        let rest = (p.0.drop_last(), p.1.drop_last());
        if x != '-' && y != '-' {
            assert(u.drop_last() =~= s1.subrange(0, i - 1));
            assert(v.drop_last() =~= s2.subrange(0, j - 1));
            lemma_global_score_bounds(s1, s2, gap, score, i - 1, j - 1, rest);
        } else if x == '-' {
            assert(v.drop_last() =~= s2.subrange(0, j - 1));
            lemma_global_score_bounds(s1, s2, gap, score, i, j - 1, rest);
            if i == 0 {
                assert(gap * (j - 1) + gap == gap * j) by (nonlinear_arith);
            }
        } else {
            assert(u.drop_last() =~= s1.subrange(0, i - 1));
            lemma_global_score_bounds(s1, s2, gap, score, i - 1, j, rest);
            if j == 0 {
                assert(gap * (i - 1) + gap == gap * i) by (nonlinear_arith);
            }
        }
    }
}

/// No alignment of a stretch of `s1` with a stretch of `s2` scores more than
/// the cell of the local score table at which the two stretches end, where
/// the gap penalty is no bonus.
pub proof fn lemma_local_score_bounds(
    s1: Seq<char>,
    s2: Seq<char>,
    gap: int,
    score: spec_fn(char, char) -> int,
    k: int,
    i: int,
    l: int,
    j: int,
    p: (Seq<char>, Seq<char>),
)
    requires
        gap <= 0,
        aligns_stretches(p, s1, s2, k, i, l, j),
    ensures
        alignment_score(p, gap, score) <= cell_score(
            s1,
            s2,
            gap,
            score,
            Algorithm::SmithWaterman,
            i,
            j,
        ),
        0 <= cell_score(s1, s2, gap, score, Algorithm::SmithWaterman, i, j),
    decreases p.0.len(),
{
    let u = s1.subrange(k, i);
    let v = s2.subrange(l, j);
    if p.0.len() > 0 {
        lemma_last_column(p, u, v);
        let x = p.0.last();
        let y = p.1.last();
        let rest = (p.0.drop_last(), p.1.drop_last());
        if x != '-' && y != '-' {
            assert(u.drop_last() =~= s1.subrange(k, i - 1));
            assert(v.drop_last() =~= s2.subrange(l, j - 1));
            lemma_local_score_bounds(s1, s2, gap, score, k, i - 1, l, j - 1, rest);
        } else if x == '-' {
            assert(v.drop_last() =~= s2.subrange(l, j - 1));
            lemma_local_score_bounds(s1, s2, gap, score, k, i, l, j - 1, rest);
        } else {
            assert(u.drop_last() =~= s1.subrange(k, i - 1));
            lemma_local_score_bounds(s1, s2, gap, score, k, i - 1, l, j, rest);
        }
    }
}

/// No alignment that ends at a cell scores more than the cell: a global
/// alignment of the two prefixes, or a local alignment of two stretches where
/// the gap penalty is no bonus.
pub proof fn lemma_score_bounds(
    s1: Seq<char>,
    s2: Seq<char>,
    gap: int,
    score: spec_fn(char, char) -> int,
    mode: Algorithm,
    k: int,
    i: int,
    l: int,
    j: int,
    p: (Seq<char>, Seq<char>),
)
    requires
        aligns_stretches(p, s1, s2, k, i, l, j),
        mode == Algorithm::NeedlemanWunsch ==> k == 0 && l == 0,
        mode == Algorithm::SmithWaterman ==> gap <= 0,
    ensures
        alignment_score(p, gap, score) <= cell_score(s1, s2, gap, score, mode, i, j),
{
    match mode {
        Algorithm::NeedlemanWunsch => lemma_global_score_bounds(s1, s2, gap, score, i, j, p),
        Algorithm::SmithWaterman => lemma_local_score_bounds(s1, s2, gap, score, k, i, l, j, p),
    }
}

/// The tags of a cell of the direction table are the tags that the
/// recurrence gives the cell.
pub proof fn lemma_table_tags(
    d: Seq<Seq<Seq<Direction>>>,
    s1: Seq<char>,
    s2: Seq<char>,
    gap: int,
    score: spec_fn(char, char) -> int,
    mode: Algorithm,
    i: int,
    j: int,
)
    requires
        is_direction_table(d, s1, s2, gap, score, mode),
        0 <= i <= s1.len(),
        0 <= j <= s2.len(),
    ensures
        forall|t: Direction|
            has_tag(d, i, j, t) <==> cell_dirs(s1, s2, gap, score, mode, i, j).contains(t),
{
    assert(d[i][j] == cell_dirs(s1, s2, gap, score, mode, i, j));
}

/// An alignment that attains the score of a cell, followed by the column of
/// a tag that the next cell records, attains the score of that cell.
pub proof fn lemma_step_is_optimal(
    s1: Seq<char>,
    s2: Seq<char>,
    gap: int,
    score: spec_fn(char, char) -> int,
    mode: Algorithm,
    i: int,
    j: int,
    t: Direction,
    q: (Seq<char>, Seq<char>),
    k: int,
    l: int,
)
    requires
        gap_free(s1),
        gap_free(s2),
        0 <= i <= s1.len(),
        0 <= j <= s2.len(),
        t != Direction::Start,
        cell_dirs(s1, s2, gap, score, mode, i, j).contains(t),
        source_cell(i, j, t).0 >= 0,
        source_cell(i, j, t).1 >= 0,
        aligns_stretches(q, s1, s2, k, source_cell(i, j, t).0, l, source_cell(i, j, t).1),
        alignment_score(q, gap, score) == cell_score(
            s1,
            s2,
            gap,
            score,
            mode,
            source_cell(i, j, t).0,
            source_cell(i, j, t).1,
        ),
    ensures
        aligns_stretches(step_from(s1, s2, i, j, t, q), s1, s2, k, i, l, j),
        alignment_score(step_from(s1, s2, i, j, t, q), gap, score) == cell_score(
            s1,
            s2,
            gap,
            score,
            mode,
            i,
            j,
        ),
{
    let (a, b) = source_cell(i, j, t);
    let (x, y) = step_column(s1, s2, i, j, t);
    if i > 0 && j > 0 {
        lemma_recorded_branches(s1, s2, gap, score, mode, i, j);
    } else {
        lemma_boundary_tags(s1, s2, gap, score, mode, i, j, t);
    }
    lemma_one_more_column(q, s1.subrange(k, a), s2.subrange(l, b), x, y, gap, score);
    if a < i {
        assert(s1.subrange(k, a).push(s1[i - 1]) =~= s1.subrange(k, i));
    }
    if b < j {
        assert(s2.subrange(l, b).push(s2[j - 1]) =~= s2.subrange(l, j));
    }
    if i == 0 {
        assert(gap * (j - 1) + gap == gap * j) by (nonlinear_arith);
    }
    if j == 0 {
        assert(gap * (i - 1) + gap == gap * i) by (nonlinear_arith);
    }
}

/// Every alignment that the traceback lists for a cell aligns two stretches
/// that end at the cell, the two whole prefixes in a global table, and scores
/// what the cell holds, where the sequences hold no gap marker themselves.
#[verifier::rlimit(30)]
pub proof fn lemma_listed_is_optimal(
    s1: Seq<char>,
    s2: Seq<char>,
    gap: int,
    score: spec_fn(char, char) -> int,
    mode: Algorithm,
    d: Seq<Seq<Seq<Direction>>>,
    i: int,
    j: int,
    x: int,
)
    requires
        gap_free(s1),
        gap_free(s2),
        is_direction_table(d, s1, s2, gap, score, mode),
        0 <= i <= s1.len(),
        0 <= j <= s2.len(),
        0 <= x < alignments_from(s1, s2, d, i, j).len(),
    ensures
        exists|k: int, l: int|
            #[trigger] aligns_stretches(alignments_from(s1, s2, d, i, j)[x], s1, s2, k, i, l, j) && (
            mode == Algorithm::NeedlemanWunsch ==> k == 0 && l == 0),
        alignment_score(alignments_from(s1, s2, d, i, j)[x], gap, score) == cell_score(
            s1,
            s2,
            gap,
            score,
            mode,
            i,
            j,
        ),
    decreases i + j,
{
    let p = alignments_from(s1, s2, d, i, j)[x];
    let none = Seq::<char>::empty();
    if i == 0 && j == 0 {
        assert(s1.subrange(0, 0) =~= none);
        assert(s2.subrange(0, 0) =~= none);
        assert(aligns_stretches(p, s1, s2, 0, 0, 0, 0));
        assert(gap * 0 == 0) by (nonlinear_arith);
    } else {
        lemma_listed_part(s1, s2, d, i, j, x);
        lemma_table_tags(d, s1, s2, gap, score, mode, i, j);
        let (t, y) = part_of(s1, s2, d, i, j, x);
        if t == Direction::Start {
            if i > 0 && j > 0 {
                lemma_recorded_branches(s1, s2, gap, score, mode, i, j);
            } else {
                lemma_boundary_tags(s1, s2, gap, score, mode, i, j, Direction::Start);
            }
            assert(s1.subrange(i, i) =~= none);
            assert(s2.subrange(j, j) =~= none);
            assert(aligns_stretches(p, s1, s2, i, i, j, j));
        } else {
            let (a, b) = source_cell(i, j, t);
            let q = alignments_from(s1, s2, d, a, b)[y];
            lemma_listed_is_optimal(s1, s2, gap, score, mode, d, a, b, y);
            let (k, l) = choose|k: int, l: int|
                #[trigger] aligns_stretches(q, s1, s2, k, a, l, b) && (mode
                    == Algorithm::NeedlemanWunsch ==> k == 0 && l == 0);
            lemma_step_is_optimal(s1, s2, gap, score, mode, i, j, t, q, k, l);
            assert(aligns_stretches(p, s1, s2, k, i, l, j));
        }
    }
}

/// Every alignment that ends at a cell and scores what the cell holds is
/// among those that the traceback lists for the cell: a global alignment of
/// the two prefixes, or a local alignment of two stretches where the gap
/// penalty is a true penalty.
pub proof fn lemma_optimal_is_listed(
    s1: Seq<char>,
    s2: Seq<char>,
    gap: int,
    score: spec_fn(char, char) -> int,
    mode: Algorithm,
    d: Seq<Seq<Seq<Direction>>>,
    k: int,
    i: int,
    l: int,
    j: int,
    p: (Seq<char>, Seq<char>),
)
    requires
        is_direction_table(d, s1, s2, gap, score, mode),
        aligns_stretches(p, s1, s2, k, i, l, j),
        mode == Algorithm::NeedlemanWunsch ==> k == 0 && l == 0,
        mode == Algorithm::SmithWaterman ==> gap < 0,
        alignment_score(p, gap, score) == cell_score(s1, s2, gap, score, mode, i, j),
    ensures
        alignments_from(s1, s2, d, i, j).contains(p),
    decreases p.0.len(),
{
    let u = s1.subrange(k, i);
    let v = s2.subrange(l, j);
    let none = Seq::<char>::empty();
    if p.0.len() == 0 {
        lemma_aligns_nothing(p, u, v);
        assert(p.0 =~= none && p.1 =~= none);
        if i > 0 || j > 0 {
            lemma_table_tags(d, s1, s2, gap, score, mode, i, j);
            if i > 0 && j > 0 {
                lemma_recorded_branches(s1, s2, gap, score, mode, i, j);
            } else {
                lemma_boundary_tags(s1, s2, gap, score, mode, i, j, Direction::Start);
            }
        }
        lemma_empty_is_listed(s1, s2, d, i, j);
    } else {
        lemma_last_column(p, u, v);
        let x = p.0.last();
        let y = p.1.last();
        let rest = (p.0.drop_last(), p.1.drop_last());
        let t = if x != '-' && y != '-' {
            Direction::Diagonal
        } else if x == '-' {
            Direction::Left
        } else {
            Direction::Up
        };
        let (a, b) = source_cell(i, j, t);
        assert(p == step_from(s1, s2, i, j, t, rest)) by {
            assert(p.0 =~= rest.0.push(x));
            assert(p.1 =~= rest.1.push(y));
        }
        assert(aligns_stretches(rest, s1, s2, k, a, l, b)) by {
            if a < i {
                assert(u.drop_last() =~= s1.subrange(k, a));
            }
            if b < j {
                assert(v.drop_last() =~= s2.subrange(l, b));
            }
        }
        lemma_score_bounds(s1, s2, gap, score, mode, k, a, l, b, rest);
        lemma_table_tags(d, s1, s2, gap, score, mode, i, j);
        if i > 0 && j > 0 {
            lemma_recorded_branches(s1, s2, gap, score, mode, i, j);
        } else {
            lemma_boundary_tags(s1, s2, gap, score, mode, i, j, t);
            if i == 0 {
                assert(gap * (j - 1) + gap == gap * j) by (nonlinear_arith);
            }
            if j == 0 {
                assert(gap * (i - 1) + gap == gap * i) by (nonlinear_arith);
            }
        }
        lemma_optimal_is_listed(s1, s2, gap, score, mode, d, k, a, l, b, rest);
        lemma_step_is_listed(s1, s2, d, i, j, t, rest);
    }
}

/// The traceback lists at least one alignment for every cell of the
/// direction table.
pub proof fn lemma_some_alignment_is_listed(
    s1: Seq<char>,
    s2: Seq<char>,
    gap: int,
    score: spec_fn(char, char) -> int,
    mode: Algorithm,
    d: Seq<Seq<Seq<Direction>>>,
    i: int,
    j: int,
)
    requires
        is_direction_table(d, s1, s2, gap, score, mode),
        0 <= i <= s1.len(),
        0 <= j <= s2.len(),
    ensures
        alignments_from(s1, s2, d, i, j).len() > 0,
    decreases i + j,
{
    if i > 0 || j > 0 {
        lemma_alignment_parts(s1, s2, d, i, j);
        lemma_table_tags(d, s1, s2, gap, score, mode, i, j);
        let tags = cell_dirs(s1, s2, gap, score, mode, i, j);
        if i > 0 && j > 0 {
            lemma_recorded_branches(s1, s2, gap, score, mode, i, j);
            lemma_some_alignment_is_listed(s1, s2, gap, score, mode, d, i - 1, j - 1);
        } else {
            lemma_boundary_tags(s1, s2, gap, score, mode, i, j, Direction::Start);
            lemma_boundary_tags(s1, s2, gap, score, mode, i, j, Direction::Left);
            lemma_boundary_tags(s1, s2, gap, score, mode, i, j, Direction::Up);
        }
        if i > 0 {
            lemma_some_alignment_is_listed(s1, s2, gap, score, mode, d, i - 1, j);
        }
        if j > 0 {
            lemma_some_alignment_is_listed(s1, s2, gap, score, mode, d, i, j - 1);
        }
        if i > 0 && j > 0 {
            let t = tags[0];
            assert(tags.contains(t));
            assert(has_tag(d, i, j, t));
        }
    }
}

/// `p` is a global alignment of `s1` and `s2` that no other outscores.
pub open spec fn is_best_global(
    p: (Seq<char>, Seq<char>),
    s1: Seq<char>,
    s2: Seq<char>,
    gap: int,
    score: spec_fn(char, char) -> int,
) -> bool {
    &&& aligns(p, s1, s2)
    &&& forall|q: (Seq<char>, Seq<char>)| #[trigger]
        aligns(q, s1, s2) ==> alignment_score(q, gap, score) <= alignment_score(p, gap, score)
}

/// The alignments that the traceback lists for the last cell of a global
/// direction table are the global alignments of the two sequences that no
/// other outscores, and their score is the entry of the last cell, where the
/// sequences hold no gap marker themselves.
pub proof fn lemma_global_alignments_are_the_best(
    s1: Seq<char>,
    s2: Seq<char>,
    gap: int,
    score: spec_fn(char, char) -> int,
    d: Seq<Seq<Seq<Direction>>>,
    p: (Seq<char>, Seq<char>),
)
    requires
        gap_free(s1),
        gap_free(s2),
        is_direction_table(d, s1, s2, gap, score, Algorithm::NeedlemanWunsch),
    ensures
        alignments_from(s1, s2, d, s1.len() as int, s2.len() as int).contains(p) <==> is_best_global(
            p,
            s1,
            s2,
            gap,
            score,
        ),
        is_best_global(p, s1, s2, gap, score) ==> alignment_score(p, gap, score) == cell_score(
            s1,
            s2,
            gap,
            score,
            Algorithm::NeedlemanWunsch,
            s1.len() as int,
            s2.len() as int,
        ),
{
    let mode = Algorithm::NeedlemanWunsch;
    let n1 = s1.len() as int;
    let n2 = s2.len() as int;
    let all = alignments_from(s1, s2, d, n1, n2);
    let top = cell_score(s1, s2, gap, score, mode, n1, n2);
    assert(s1.subrange(0, n1) =~= s1);
    assert(s2.subrange(0, n2) =~= s2);
    assert forall|q: (Seq<char>, Seq<char>)| #[trigger] aligns(q, s1, s2) implies alignment_score(
        q,
        gap,
        score,
    ) <= top by {
        lemma_global_score_bounds(s1, s2, gap, score, n1, n2, q);
    }
    lemma_some_alignment_is_listed(s1, s2, gap, score, mode, d, n1, n2);
    lemma_listed_is_optimal(s1, s2, gap, score, mode, d, n1, n2, 0);
    assert(aligns(all[0], s1, s2) && alignment_score(all[0], gap, score) == top);
    if all.contains(p) {
        let x = choose|x: int| 0 <= x < all.len() && #[trigger] all[x] == p;
        lemma_listed_is_optimal(s1, s2, gap, score, mode, d, n1, n2, x);
        assert(is_best_global(p, s1, s2, gap, score));
    }
    if is_best_global(p, s1, s2, gap, score) {
        assert(alignment_score(p, gap, score) == top);
        lemma_optimal_is_listed(s1, s2, gap, score, mode, d, 0, n1, 0, n2, p);
    }
}

/// An alignment is among those that end at the cells `roots` if and only if
/// it is among those that end at one of them.
pub proof fn lemma_alignments_at(
    s1: Seq<char>,
    s2: Seq<char>,
    d: Seq<Seq<Seq<Direction>>>,
    roots: Seq<(usize, usize)>,
    p: (Seq<char>, Seq<char>),
)
    ensures
        alignments_at(s1, s2, d, roots).contains(p) <==> exists|x: int|
            0 <= x < roots.len() && alignments_from(
                s1,
                s2,
                d,
                (#[trigger] roots[x]).0 as int,
                roots[x].1 as int,
            ).contains(p),
    decreases roots.len(),
{
    if roots.len() > 0 {
        let shorter = roots.drop_last();
        lemma_alignments_at(s1, s2, d, shorter, p);
        let all = alignments_at(s1, s2, d, roots);
        let before = alignments_at(s1, s2, d, shorter);
        let last = alignments_from(s1, s2, d, roots.last().0 as int, roots.last().1 as int);
        assert(all == before + last);
        if all.contains(p) {
            let z = choose|z: int| 0 <= z < all.len() && #[trigger] all[z] == p;
            if z < before.len() {
                assert(before[z] == p);
                let x = choose|x: int|
                    0 <= x < shorter.len() && alignments_from(
                        s1,
                        s2,
                        d,
                        (#[trigger] shorter[x]).0 as int,
                        shorter[x].1 as int,
                    ).contains(p);
                assert(roots[x] == shorter[x]);
            } else {
                assert(last[z - before.len()] == p);
                assert(roots[roots.len() - 1] == roots.last());
            }
        }
        if exists|x: int|
            0 <= x < roots.len() && alignments_from(
                s1,
                s2,
                d,
                (#[trigger] roots[x]).0 as int,
                roots[x].1 as int,
            ).contains(p) {
            let x = choose|x: int|
                0 <= x < roots.len() && alignments_from(
                    s1,
                    s2,
                    d,
                    (#[trigger] roots[x]).0 as int,
                    roots[x].1 as int,
                ).contains(p);
            if x < shorter.len() {
                assert(shorter[x] == roots[x]);
                let z = choose|z: int| 0 <= z < before.len() && #[trigger] before[z] == p;
                assert(all[z] == p);
            } else {
                let z = choose|z: int| 0 <= z < last.len() && #[trigger] last[z] == p;
                assert(all[before.len() + z] == p);
            }
        }
    }
}

/// `p` aligns a stretch of `s1` with a stretch of `s2`.
pub open spec fn is_local_alignment(p: (Seq<char>, Seq<char>), s1: Seq<char>, s2: Seq<char>) -> bool {
    exists|k: int, i: int, l: int, j: int| #[trigger] aligns_stretches(p, s1, s2, k, i, l, j)
}

/// `p` is a local alignment of `s1` and `s2` that no other outscores.
pub open spec fn is_best_local(
    p: (Seq<char>, Seq<char>),
    s1: Seq<char>,
    s2: Seq<char>,
    gap: int,
    score: spec_fn(char, char) -> int,
) -> bool {
    &&& is_local_alignment(p, s1, s2)
    &&& forall|q: (Seq<char>, Seq<char>)| #[trigger]
        is_local_alignment(q, s1, s2) ==> alignment_score(q, gap, score) <= alignment_score(
            p,
            gap,
            score,
        )
}

/// The alignments that the traceback lists for the cells with the largest
/// score of a local table are the local alignments of the two sequences that
/// no other outscores, and their score is that largest score, where the gap
/// penalty is a true penalty and the sequences hold no gap marker themselves.
pub proof fn lemma_local_alignments_are_the_best(
    s1: Seq<char>,
    s2: Seq<char>,
    gap: int,
    score: spec_fn(char, char) -> int,
    t: Seq<Seq<i32>>,
    d: Seq<Seq<Seq<Direction>>>,
    p: (Seq<char>, Seq<char>),
)
    requires
        gap < 0,
        gap_free(s1),
        gap_free(s2),
        s1.len() < usize::MAX,
        s2.len() < usize::MAX,
        is_score_table(t, s1, s2, gap, score, Algorithm::SmithWaterman),
        is_direction_table(d, s1, s2, gap, score, Algorithm::SmithWaterman),
    ensures
        alignments_at(s1, s2, d, max_cells(t)).contains(p) <==> is_best_local(p, s1, s2, gap, score),
        is_best_local(p, s1, s2, gap, score) ==> alignment_score(p, gap, score) == grid_max(
            t,
            t.len() as int,
        ),
{
    let mode = Algorithm::SmithWaterman;
    let roots = max_cells(t);
    let top = grid_max(t, t.len() as int);
    assert(is_countable(t));
    lemma_max_cells(t);
    lemma_alignments_at(s1, s2, d, roots, p);
    // No local alignment scores more than the largest entry.
    assert forall|q: (Seq<char>, Seq<char>)| #[trigger]
        is_local_alignment(q, s1, s2) implies alignment_score(q, gap, score) <= top by {
        let (k, i, l, j) = choose|k: int, i: int, l: int, j: int| #[trigger]
            aligns_stretches(q, s1, s2, k, i, l, j);
        lemma_local_score_bounds(s1, s2, gap, score, k, i, l, j, q);
        assert(in_grid(t, i, j));
        assert(t[i][j] <= top);
    }
    // Some listed alignment attains it.
    assert(in_grid(t, 0, 0));
    let a = roots[0].0 as int;
    let b = roots[0].1 as int;
    assert(in_grid(t, a, b) && t[a][b] == top);
    lemma_some_alignment_is_listed(s1, s2, gap, score, mode, d, a, b);
    lemma_listed_is_optimal(s1, s2, gap, score, mode, d, a, b, 0);
    let witness = alignments_from(s1, s2, d, a, b)[0];
    assert(is_local_alignment(witness, s1, s2) && alignment_score(witness, gap, score) == top);
    if alignments_at(s1, s2, d, roots).contains(p) {
        let x = choose|x: int|
            0 <= x < roots.len() && alignments_from(
                s1,
                s2,
                d,
                (#[trigger] roots[x]).0 as int,
                roots[x].1 as int,
            ).contains(p);
        let i = roots[x].0 as int;
        let j = roots[x].1 as int;
        let from = alignments_from(s1, s2, d, i, j);
        let z = choose|z: int| 0 <= z < from.len() && #[trigger] from[z] == p;
        lemma_listed_is_optimal(s1, s2, gap, score, mode, d, i, j, z);
        assert(is_local_alignment(p, s1, s2));
        assert(alignment_score(p, gap, score) == top);
        assert(is_best_local(p, s1, s2, gap, score));
    }
    if is_best_local(p, s1, s2, gap, score) {
        assert(alignment_score(p, gap, score) >= alignment_score(witness, gap, score));
        let (k, i, l, j) = choose|k: int, i: int, l: int, j: int| #[trigger]
            aligns_stretches(p, s1, s2, k, i, l, j);
        lemma_local_score_bounds(s1, s2, gap, score, k, i, l, j, p);
        assert(in_grid(t, i, j));
        assert(t[i][j] <= top);
        assert(t[i][j] == top);
        lemma_optimal_is_listed(s1, s2, gap, score, mode, d, k, i, l, j, p);
        assert(roots.contains((i as usize, j as usize)));
        let x = choose|x: int| 0 <= x < roots.len() && #[trigger] roots[x] == (i as usize, j as usize);
        assert(alignments_from(s1, s2, d, roots[x].0 as int, roots[x].1 as int).contains(p));
    }
}

} // verus!
