//! Laws of the score table.

use crate::algorithms::{
    cell_dirs, cell_score, diagonal_sum, is_direction_table, is_score_table, left_sum, table_fits,
    tag_if, up_sum, Algorithm, Direction,
};
use crate::algorithms::{accepts, first_rejected, is_build_of, scoring_is_determined};
use crate::error::AlignError;
use vstd::prelude::*;

verus! {

/// No score exceeds `bound` in absolute value, for the pairs of a symbol of
/// `s1` and a symbol of `s2`.
pub open spec fn scores_within(
    s1: Seq<char>,
    s2: Seq<char>,
    score: spec_fn(char, char) -> int,
    bound: int,
) -> bool {
    forall|k: int, l: int|
        0 <= k < s1.len() && 0 <= l < s2.len() ==> -bound <= #[trigger] score(s1[k], s2[l])
            <= bound
}

/// Where the gap penalty and the scores stay within `bound`, the score of
/// cell `(i, j)` stays within `bound * (i + j)`.
pub proof fn lemma_cell_score_bounded(
    s1: Seq<char>,
    s2: Seq<char>,
    gap: int,
    score: spec_fn(char, char) -> int,
    mode: Algorithm,
    bound: int,
    i: int,
    j: int,
)
    requires
        0 <= i <= s1.len(),
        0 <= j <= s2.len(),
        -bound <= gap <= bound,
        scores_within(s1, s2, score, bound),
    ensures
        -(bound * (i + j)) <= cell_score(s1, s2, gap, score, mode, i, j) <= bound * (i + j),
    decreases i + j,
{
    if i == 0 || j == 0 {
        assert(-(bound * j) <= gap * j <= bound * j) by (nonlinear_arith)
            requires
                -bound <= gap <= bound,
                0 <= j,
        ;
        assert(-(bound * i) <= gap * i <= bound * i) by (nonlinear_arith)
            requires
                -bound <= gap <= bound,
                0 <= i,
        ;
        assert(0 <= bound * (i + j)) by (nonlinear_arith)
            requires
                0 <= bound,
                0 <= i + j,
        ;
    } else {
        lemma_cell_score_bounded(s1, s2, gap, score, mode, bound, i - 1, j - 1);
        lemma_cell_score_bounded(s1, s2, gap, score, mode, bound, i - 1, j);
        lemma_cell_score_bounded(s1, s2, gap, score, mode, bound, i, j - 1);
        assert(-bound <= score(s1[i - 1], s2[j - 1]) <= bound);
        assert(bound * (i - 1 + (j - 1)) + bound <= bound * (i + j) && bound * (i - 1 + j) + bound
            == bound * (i + j) && bound * (i + (j - 1)) + bound == bound * (i + j) && 0 <= bound
            * (i + j)) by (nonlinear_arith)
            requires
                0 <= bound,
                0 <= i + j,
        ;
    }
}

/// Where the gap penalty and the scores stay within `bound`, and `bound`
/// times the two lengths is an `i32`, every entry of the table is an `i32`.
pub proof fn lemma_bounded_table_fits(
    s1: Seq<char>,
    s2: Seq<char>,
    gap: int,
    score: spec_fn(char, char) -> int,
    mode: Algorithm,
    bound: int,
)
    requires
        -bound <= gap <= bound,
        scores_within(s1, s2, score, bound),
        bound * (s1.len() + s2.len()) <= i32::MAX,
    ensures
        table_fits(s1, s2, gap, score, mode),
{
    assert forall|i: int, j: int| 0 <= i <= s1.len() && 0 <= j <= s2.len() implies i32::MIN
        <= #[trigger] cell_score(s1, s2, gap, score, mode, i, j) <= i32::MAX by {
        lemma_cell_score_bounded(s1, s2, gap, score, mode, bound, i, j);
        assert(bound * (i + j) <= bound * (s1.len() + s2.len())) by (nonlinear_arith)
            requires
                0 <= bound,
                0 <= i + j <= s1.len() + s2.len(),
        ;
    }
}

/// Two scoring functions agree on every pair of a symbol of `s1` and a symbol
/// of `s2`.
pub open spec fn scores_agree(
    s1: Seq<char>,
    s2: Seq<char>,
    f: spec_fn(char, char) -> int,
    g: spec_fn(char, char) -> int,
) -> bool {
    forall|k: int, l: int|
        0 <= k < s1.len() && 0 <= l < s2.len() ==> #[trigger] f(s1[k], s2[l]) == g(s1[k], s2[l])
}

/// A cell depends on the scoring function only through the pairs of a symbol
/// of `s1` and a symbol of `s2`.
pub proof fn lemma_cell_congruent(
    s1: Seq<char>,
    s2: Seq<char>,
    gap: int,
    f: spec_fn(char, char) -> int,
    g: spec_fn(char, char) -> int,
    mode: Algorithm,
    i: int,
    j: int,
)
    requires
        scores_agree(s1, s2, f, g),
        0 <= i <= s1.len(),
        0 <= j <= s2.len(),
    ensures
        cell_score(s1, s2, gap, f, mode, i, j) == cell_score(s1, s2, gap, g, mode, i, j),
        cell_dirs(s1, s2, gap, f, mode, i, j) == cell_dirs(s1, s2, gap, g, mode, i, j),
    decreases i + j,
{
    if i > 0 && j > 0 {
        lemma_cell_congruent(s1, s2, gap, f, g, mode, i - 1, j - 1);
        lemma_cell_congruent(s1, s2, gap, f, g, mode, i - 1, j);
        lemma_cell_congruent(s1, s2, gap, f, g, mode, i, j - 1);
        assert(f(s1[i - 1], s2[j - 1]) == g(s1[i - 1], s2[j - 1]));
    }
}

/// Tables built under one scoring function are the tables under any other
/// that agrees with it on the pairs of a symbol of `s1` and a symbol of `s2`.
pub proof fn lemma_tables_congruent(
    t: Seq<Seq<i32>>,
    d: Seq<Seq<Seq<Direction>>>,
    s1: Seq<char>,
    s2: Seq<char>,
    gap: int,
    f: spec_fn(char, char) -> int,
    g: spec_fn(char, char) -> int,
    mode: Algorithm,
)
    requires
        scores_agree(s1, s2, f, g),
        is_score_table(t, s1, s2, gap, f, mode),
        is_direction_table(d, s1, s2, gap, f, mode),
    ensures
        is_score_table(t, s1, s2, gap, g, mode),
        is_direction_table(d, s1, s2, gap, g, mode),
{
    assert forall|i: int, j: int| 0 <= i <= s1.len() && 0 <= j <= s2.len() implies #[trigger] t[i][j]
        == cell_score(s1, s2, gap, g, mode, i, j) by {
        lemma_cell_congruent(s1, s2, gap, f, g, mode, i, j);
    }
    assert forall|i: int, j: int| 0 <= i <= s1.len() && 0 <= j <= s2.len() implies #[trigger] d[i][j]
        == cell_dirs(s1, s2, gap, g, mode, i, j) by {
        lemma_cell_congruent(s1, s2, gap, f, g, mode, i, j);
    }
}

/// Swapping the two sequences transposes the score table, where the scoring
/// function is symmetric.
pub proof fn lemma_score_table_symmetric(
    s1: Seq<char>,
    s2: Seq<char>,
    gap: int,
    score: spec_fn(char, char) -> int,
    mode: Algorithm,
    i: int,
    j: int,
)
    requires
        forall|a: char, b: char| #[trigger] score(a, b) == score(b, a),
        0 <= i <= s1.len(),
        0 <= j <= s2.len(),
    ensures
        cell_score(s2, s1, gap, score, mode, j, i) == cell_score(s1, s2, gap, score, mode, i, j),
    decreases i + j,
{
    if i > 0 && j > 0 {
        lemma_score_table_symmetric(s1, s2, gap, score, mode, i - 1, j - 1);
        lemma_score_table_symmetric(s1, s2, gap, score, mode, i - 1, j);
        lemma_score_table_symmetric(s1, s2, gap, score, mode, i, j - 1);
        assert(score(s1[i - 1], s2[j - 1]) == score(s2[j - 1], s1[i - 1]));
    }
}

/// The first row and the first column of a score table: multiples of the gap
/// penalty in a global table, 0 in a local table.
pub proof fn lemma_score_table_boundary(
    t: Seq<Seq<i32>>,
    s1: Seq<char>,
    s2: Seq<char>,
    gap: int,
    score: spec_fn(char, char) -> int,
    mode: Algorithm,
    i: int,
    j: int,
)
    requires
        is_score_table(t, s1, s2, gap, score, mode),
        0 <= i <= s1.len(),
        0 <= j <= s2.len(),
    ensures
        mode == Algorithm::NeedlemanWunsch ==> t[i][0] == gap * i && t[0][j] == gap * j,
        mode == Algorithm::SmithWaterman ==> t[i][0] == 0 && t[0][j] == 0,
{
}

/// Two pairs of tables built for the same sequences, gap penalty, scoring
/// function and mode are equal.
pub proof fn lemma_tables_unique(
    t1: Seq<Seq<i32>>,
    d1: Seq<Seq<Seq<Direction>>>,
    t2: Seq<Seq<i32>>,
    d2: Seq<Seq<Seq<Direction>>>,
    s1: Seq<char>,
    s2: Seq<char>,
    gap: int,
    score: spec_fn(char, char) -> int,
    mode: Algorithm,
)
    requires
        is_score_table(t1, s1, s2, gap, score, mode),
        is_direction_table(d1, s1, s2, gap, score, mode),
        is_score_table(t2, s1, s2, gap, score, mode),
        is_direction_table(d2, s1, s2, gap, score, mode),
    ensures
        t1 == t2,
        d1 == d2,
{
    assert forall|i: int| 0 <= i < t1.len() implies t1[i] == t2[i] by {
        assert(t1[i].len() == t2[i].len());
        assert forall|j: int| 0 <= j < t1[i].len() implies t1[i][j] == t2[i][j] by {
            assert(t1[i][j] == cell_score(s1, s2, gap, score, mode, i, j));
            assert(t2[i][j] == cell_score(s1, s2, gap, score, mode, i, j));
        }
        assert(t1[i] =~= t2[i]);
    }
    assert(t1 =~= t2);
    assert forall|i: int| 0 <= i < d1.len() implies d1[i] == d2[i] by {
        assert(d1[i].len() == d2[i].len());
        assert(d1[i] =~= d2[i]);
    }
    assert(d1 =~= d2);
}

/// The tags of a cell inside the table: every branch whose sum is the
/// cell's score and no other, and `Start` where a local alignment scores 0.
pub proof fn lemma_recorded_branches(
    s1: Seq<char>,
    s2: Seq<char>,
    gap: int,
    score: spec_fn(char, char) -> int,
    mode: Algorithm,
    i: int,
    j: int,
)
    requires
        i > 0,
        j > 0,
    ensures
        cell_dirs(s1, s2, gap, score, mode, i, j).contains(Direction::Start) <==> mode
            == Algorithm::SmithWaterman && cell_score(s1, s2, gap, score, mode, i, j) == 0,
        cell_dirs(s1, s2, gap, score, mode, i, j).contains(Direction::Diagonal) <==> diagonal_sum(
            s1,
            s2,
            gap,
            score,
            mode,
            i,
            j,
        ) == cell_score(s1, s2, gap, score, mode, i, j),
        cell_dirs(s1, s2, gap, score, mode, i, j).contains(Direction::Up) <==> up_sum(
            s1,
            s2,
            gap,
            score,
            mode,
            i,
            j,
        ) == cell_score(s1, s2, gap, score, mode, i, j),
        cell_dirs(s1, s2, gap, score, mode, i, j).contains(Direction::Left) <==> left_sum(
            s1,
            s2,
            gap,
            score,
            mode,
            i,
            j,
        ) == cell_score(s1, s2, gap, score, mode, i, j),
        cell_dirs(s1, s2, gap, score, mode, i, j).len() > 0,
{
    let best = cell_score(s1, s2, gap, score, mode, i, j);
    let a = tag_if(mode == Algorithm::SmithWaterman && best == 0, Direction::Start);
    let b = tag_if(diagonal_sum(s1, s2, gap, score, mode, i, j) == best, Direction::Diagonal);
    let c = tag_if(up_sum(s1, s2, gap, score, mode, i, j) == best, Direction::Up);
    let e = tag_if(left_sum(s1, s2, gap, score, mode, i, j) == best, Direction::Left);
    let tags = cell_dirs(s1, s2, gap, score, mode, i, j);
    assert(tags == a + b + c + e);
    if a.len() > 0 {
        assert(tags[0] == Direction::Start);
    }
    if b.len() > 0 {
        assert(tags[a.len() as int] == Direction::Diagonal);
    }
    if c.len() > 0 {
        assert(tags[(a.len() + b.len()) as int] == Direction::Up);
    }
    if e.len() > 0 {
        assert(tags[(a.len() + b.len() + c.len()) as int] == Direction::Left);
    }
}

/// The tags of a cell on the boundary. In a global table the corner has
/// none, the rest of the first column has `Up` alone and the rest of the
/// first row has `Left` alone; in a local table every cell has `Start` alone.
pub proof fn lemma_boundary_tags(
    s1: Seq<char>,
    s2: Seq<char>,
    gap: int,
    score: spec_fn(char, char) -> int,
    mode: Algorithm,
    i: int,
    j: int,
    t: Direction,
)
    requires
        0 <= i,
        0 <= j,
        i == 0 || j == 0,
    ensures
        cell_dirs(s1, s2, gap, score, mode, i, j).contains(t) <==> match mode {
            Algorithm::SmithWaterman => t == Direction::Start,
            Algorithm::NeedlemanWunsch => (t == Direction::Up && i > 0) || (t == Direction::Left
                && j > 0),
        },
{
    let tags = cell_dirs(s1, s2, gap, score, mode, i, j);
    match mode {
        Algorithm::SmithWaterman => {
            assert(tags[0] == Direction::Start);
        },
        Algorithm::NeedlemanWunsch => {
            let a = tag_if(i > 0, Direction::Up);
            let b = tag_if(j > 0, Direction::Left);
            assert(tags == a + b);
            if i > 0 {
                assert(tags[0] == Direction::Up);
            }
            if j > 0 {
                assert(tags[a.len() as int] == Direction::Left);
            }
        },
    }
}

/// Building the tables twice for the same sequences, gap penalty, scoring
/// function and mode yields the same: either the same two tables, or the same
/// error.
pub proof fn lemma_build_is_determined<F: Fn(char, char) -> Result<i32, AlignError>>(
    first: Result<(Vec<Vec<i32>>, Vec<Vec<Vec<Direction>>>), AlignError>,
    second: Result<(Vec<Vec<i32>>, Vec<Vec<Vec<Direction>>>), AlignError>,
    s1: Seq<char>,
    s2: Seq<char>,
    gap: int,
    f: F,
    mode: Algorithm,
)
    requires
        scoring_is_determined(f),
        is_build_of(first, s1, s2, gap, f, mode),
        is_build_of(second, s1, s2, gap, f, mode),
    ensures
        match (first, second) {
            (Ok((t1, d1)), Ok((t2, d2))) => t1.deep_view() == t2.deep_view() && d1.deep_view()
                == d2.deep_view(),
            (Err(e1), Err(e2)) => e1 == e2,
            _ => false,
        },
{
    match (first, second) {
        (Ok((t1, d1)), Ok((t2, d2))) => {
            lemma_tables_unique(
                t1.deep_view(),
                d1.deep_view(),
                t2.deep_view(),
                d2.deep_view(),
                s1,
                s2,
                gap,
                crate::algorithms::score_model(f),
                mode,
            );
        },
        (Err(e1), Err(e2)) => {
            let (i1, j1) = choose|i: int, j: int| #[trigger] first_rejected(f, s1, s2, i, j, e1);
            let (i2, j2) = choose|i: int, j: int| #[trigger] first_rejected(f, s1, s2, i, j, e2);
            lemma_rejected_is_not_accepted(f, s1[i1], s2[j1], e1);
            lemma_rejected_is_not_accepted(f, s1[i2], s2[j2], e2);
            assert(i1 == i2 && j1 == j2);
        },
        (Ok(_), Err(e)) => {
            let (i, j) = choose|i: int, j: int| #[trigger] first_rejected(f, s1, s2, i, j, e);
            lemma_rejected_is_not_accepted(f, s1[i], s2[j], e);
        },
        (Err(e), Ok(_)) => {
            let (i, j) = choose|i: int, j: int| #[trigger] first_rejected(f, s1, s2, i, j, e);
            lemma_rejected_is_not_accepted(f, s1[i], s2[j], e);
        },
    }
}

/// A scoring function that rejects a pair returns no score for it.
pub proof fn lemma_rejected_is_not_accepted<F: Fn(char, char) -> Result<i32, AlignError>>(
    f: F,
    a: char,
    b: char,
    e: AlignError,
)
    requires
        scoring_is_determined(f),
        f.ensures((a, b), Err::<i32, AlignError>(e)),
    ensures
        !accepts(f, a, b),
{
    if accepts(f, a, b) {
        let v = choose|v: i32| f.ensures((a, b), Ok::<i32, AlignError>(v));
        assert(Ok::<i32, AlignError>(v) == Err::<i32, AlignError>(e));
    }
}

/// Every cell has a tag, but the corner of a global table.
pub proof fn lemma_cells_have_tags(
    s1: Seq<char>,
    s2: Seq<char>,
    gap: int,
    score: spec_fn(char, char) -> int,
    mode: Algorithm,
    i: int,
    j: int,
)
    requires
        0 <= i,
        0 <= j,
        mode == Algorithm::NeedlemanWunsch ==> i > 0 || j > 0,
    ensures
        cell_dirs(s1, s2, gap, score, mode, i, j).len() > 0,
{
    if i > 0 && j > 0 {
        lemma_recorded_branches(s1, s2, gap, score, mode, i, j);
    }
}

} // verus!
