//! Score tables for global and local alignment.

use crate::error::AlignError;
use crate::table_laws::{lemma_bounded_table_fits, lemma_tables_congruent, scores_agree, scores_within};
use crate::text::symbols_of;
use vstd::prelude::*;

verus! {

/// A recurrence branch through which a cell of the score table attains its
/// value, or the mark that an alignment may begin at the cell.
#[derive(Clone, Copy, Debug, PartialEq, Eq, Structural)]
pub enum Direction {
    /// From the cell above: a symbol of the first sequence against a gap.
    Up,
    /// From the cell to the left: a symbol of the second sequence against a gap.
    Left,
    /// From the cell above and to the left: one symbol of each sequence.
    Diagonal,
    /// An alignment may begin here.
    Start,
}

/// The kind of alignment that a table is built for.
#[derive(Clone, Copy, Debug, PartialEq, Eq, Structural)]
pub enum Algorithm {
    /// Global alignment: both sequences are aligned end to end.
    NeedlemanWunsch,
    /// Local alignment: the best-scoring pair of substrings is aligned.
    SmithWaterman,
}

/// The row or column that a symbol selects in a substitution matrix, if the
/// symbol belongs to the alphabet `A`, `C`, `G`, `T`.
pub open spec fn symbol_index(c: char) -> Option<int> {
    if c == 'A' {
        Some(0int)
    } else if c == 'C' {
        Some(1int)
    } else if c == 'G' {
        Some(2int)
    } else if c == 'T' {
        Some(3int)
    } else {
        None
    }
}

/// What a substitution matrix gives for a pair of symbols: the entry that the
/// two symbols select, or `InvalidSymbol` when either lies outside the alphabet.
pub open spec fn matrix_score(c1: char, c2: char, scores: [[i32; 4]; 4]) -> Result<i32, AlignError> {
    match (symbol_index(c1), symbol_index(c2)) {
        (Some(a), Some(b)) => Ok(scores[a][b]),
        _ => Err(AlignError::InvalidSymbol),
    }
}

/// The position of a symbol in the alphabet `A`, `C`, `G`, `T`.
pub fn get_char_idx(c: char) -> (idx: Result<usize, AlignError>)
    ensures
        match symbol_index(c) {
            Some(k) => idx == Ok::<usize, AlignError>(k as usize),
            None => idx == Err::<usize, AlignError>(AlignError::InvalidSymbol),
        },
{
    match c {
        'A' => Ok(0),
        'C' => Ok(1),
        'G' => Ok(2),
        'T' => Ok(3),
        _ => Err(AlignError::InvalidSymbol),
    }
}

/// The substitution score of two symbols under a 4x4 matrix indexed by the
/// alphabet `A`, `C`, `G`, `T`.
pub fn get_score(c1: char, c2: char, scores: [[i32; 4]; 4]) -> (score: Result<i32, AlignError>)
    ensures
        score == matrix_score(c1, c2, scores),
{
    let idx1 = match get_char_idx(c1) {
        Ok(k) => k,
        Err(e) => { return Err(e); },
    };
    let idx2 = match get_char_idx(c2) {
        Ok(k) => k,
        Err(e) => { return Err(e); },
    };
    Ok(scores[idx1][idx2])
}

impl DeepView for Direction {
    type V = Direction;

    open spec fn deep_view(&self) -> Direction {
        *self
    }
}

/// The larger of two integers.
pub open spec fn larger(a: int, b: int) -> int {
    if a >= b {
        a
    } else {
        b
    }
}

/// The optimal score of aligning the first `i` symbols of `s1` with the first
/// `j` symbols of `s2`.
///
/// On the boundary a global alignment pays the gap penalty once for each
/// symbol, and a local alignment scores 0. Inside, the score is the best of
/// the three ways to extend a shorter alignment, and a local alignment never
/// scores below 0.
pub open spec fn cell_score(
    s1: Seq<char>,
    s2: Seq<char>,
    gap: int,
    score: spec_fn(char, char) -> int,
    mode: Algorithm,
    i: int,
    j: int,
) -> int
    decreases i + j,
{
    if i <= 0 || j <= 0 {
        match mode {
            Algorithm::SmithWaterman => 0,
            Algorithm::NeedlemanWunsch => if i <= 0 {
                gap * j
            } else {
                gap * i
            },
        }
    } else {
        let diagonal = cell_score(s1, s2, gap, score, mode, i - 1, j - 1) + score(
            s1[i - 1],
            s2[j - 1],
        );
        let up = cell_score(s1, s2, gap, score, mode, i - 1, j) + gap;
        let left = cell_score(s1, s2, gap, score, mode, i, j - 1) + gap;
        let best = larger(diagonal, larger(up, left));
        match mode {
            Algorithm::SmithWaterman => larger(best, 0),
            Algorithm::NeedlemanWunsch => best,
        }
    }
}

/// The score of the alignment that reaches cell `(i, j)` by pairing the last
/// symbols of the two prefixes.
pub open spec fn diagonal_sum(
    s1: Seq<char>,
    s2: Seq<char>,
    gap: int,
    score: spec_fn(char, char) -> int,
    mode: Algorithm,
    i: int,
    j: int,
) -> int {
    cell_score(s1, s2, gap, score, mode, i - 1, j - 1) + score(s1[i - 1], s2[j - 1])
}

/// The score of the alignment that reaches cell `(i, j)` by setting the last
/// symbol of the first prefix against a gap.
pub open spec fn up_sum(
    s1: Seq<char>,
    s2: Seq<char>,
    gap: int,
    score: spec_fn(char, char) -> int,
    mode: Algorithm,
    i: int,
    j: int,
) -> int {
    cell_score(s1, s2, gap, score, mode, i - 1, j) + gap
}

/// The score of the alignment that reaches cell `(i, j)` by setting the last
/// symbol of the second prefix against a gap.
pub open spec fn left_sum(
    s1: Seq<char>,
    s2: Seq<char>,
    gap: int,
    score: spec_fn(char, char) -> int,
    mode: Algorithm,
    i: int,
    j: int,
) -> int {
    cell_score(s1, s2, gap, score, mode, i, j - 1) + gap
}

/// The one tag `d` if `present`, else nothing.
pub open spec fn tag_if(present: bool, d: Direction) -> Seq<Direction> {
    if present {
        seq![d]
    } else {
        Seq::<Direction>::empty()
    }
}

/// The tags of cell `(i, j)`: every recurrence branch that attains the cell's
/// score, in the order `Start`, `Diagonal`, `Up`, `Left`.
///
/// On the boundary of a global table the corner has no tag, the rest of the
/// first column has `Up` and the rest of the first row has `Left`; on the
/// boundary of a local table every cell has `Start`. Inside a local table a
/// cell that scores 0 has `Start` beside the branches that tie at 0.
pub open spec fn cell_dirs(
    s1: Seq<char>,
    s2: Seq<char>,
    gap: int,
    score: spec_fn(char, char) -> int,
    mode: Algorithm,
    i: int,
    j: int,
) -> Seq<Direction> {
    if i <= 0 || j <= 0 {
        match mode {
            Algorithm::SmithWaterman => seq![Direction::Start],
            Algorithm::NeedlemanWunsch => tag_if(i > 0, Direction::Up) + tag_if(
                j > 0,
                Direction::Left,
            ),
        }
    } else {
        let best = cell_score(s1, s2, gap, score, mode, i, j);
        tag_if(mode == Algorithm::SmithWaterman && best == 0, Direction::Start) + tag_if(
            diagonal_sum(s1, s2, gap, score, mode, i, j) == best,
            Direction::Diagonal,
        ) + tag_if(up_sum(s1, s2, gap, score, mode, i, j) == best, Direction::Up) + tag_if(
            left_sum(s1, s2, gap, score, mode, i, j) == best,
            Direction::Left,
        )
    }
}

/// `t` is the score table of `s1` and `s2`: one row for each prefix of `s1`,
/// one column for each prefix of `s2`, and in each cell the optimal score.
pub open spec fn is_score_table(
    t: Seq<Seq<i32>>,
    s1: Seq<char>,
    s2: Seq<char>,
    gap: int,
    score: spec_fn(char, char) -> int,
    mode: Algorithm,
) -> bool {
    &&& t.len() == s1.len() + 1
    &&& forall|i: int| 0 <= i <= s1.len() ==> (#[trigger] t[i]).len() == s2.len() + 1
    &&& forall|i: int, j: int|
        0 <= i <= s1.len() && 0 <= j <= s2.len() ==> #[trigger] t[i][j] == cell_score(
            s1,
            s2,
            gap,
            score,
            mode,
            i,
            j,
        )
}

/// `d` is the direction table of `s1` and `s2`: of the same shape as the score
/// table, and in each cell the tags of that cell.
pub open spec fn is_direction_table(
    d: Seq<Seq<Seq<Direction>>>,
    s1: Seq<char>,
    s2: Seq<char>,
    gap: int,
    score: spec_fn(char, char) -> int,
    mode: Algorithm,
) -> bool {
    &&& d.len() == s1.len() + 1
    &&& forall|i: int| 0 <= i <= s1.len() ==> (#[trigger] d[i]).len() == s2.len() + 1
    &&& forall|i: int, j: int|
        0 <= i <= s1.len() && 0 <= j <= s2.len() ==> #[trigger] d[i][j] == cell_dirs(
            s1,
            s2,
            gap,
            score,
            mode,
            i,
            j,
        )
}

/// Every entry of the score table of `s1` and `s2` is an `i32`.
pub open spec fn table_fits(
    s1: Seq<char>,
    s2: Seq<char>,
    gap: int,
    score: spec_fn(char, char) -> int,
    mode: Algorithm,
) -> bool {
    forall|i: int, j: int|
        0 <= i <= s1.len() && 0 <= j <= s2.len() ==> i32::MIN <= #[trigger] cell_score(
            s1,
            s2,
            gap,
            score,
            mode,
            i,
            j,
        ) <= i32::MAX
}

/// `f` may return a score for the pair `(a, b)`.
pub open spec fn accepts<F: Fn(char, char) -> Result<i32, AlignError>>(
    f: F,
    a: char,
    b: char,
) -> bool {
    exists|v: i32| f.ensures((a, b), Ok::<i32, AlignError>(v))
}

/// The scores that `f` assigns, as a function on pairs of symbols. A pair
/// for which `f` returns no score counts 0.
pub open spec fn score_model<F: Fn(char, char) -> Result<i32, AlignError>>(f: F) -> spec_fn(
    char,
    char,
) -> int {
    |a: char, b: char|
        if accepts(f, a, b) {
            (choose|v: i32| f.ensures((a, b), Ok::<i32, AlignError>(v))) as int
        } else {
            0int
        }
}

/// `f` may be called on every pair of a symbol of `s1` and a symbol of `s2`.
pub open spec fn scoring_is_total<F: Fn(char, char) -> Result<i32, AlignError>>(
    f: F,
    s1: Seq<char>,
    s2: Seq<char>,
) -> bool {
    forall|i: int, j: int|
        0 <= i < s1.len() && 0 <= j < s2.len() ==> f.requires((#[trigger] s1[i], #[trigger] s2[j]))
}

/// `f` is a function: its contract admits one result for each pair.
pub open spec fn scoring_is_determined<F: Fn(char, char) -> Result<i32, AlignError>>(
    f: F,
) -> bool {
    forall|a: char, b: char, r1: Result<i32, AlignError>, r2: Result<i32, AlignError>|
        #[trigger] f.ensures((a, b), r1) && #[trigger] f.ensures((a, b), r2) ==> r1 == r2
}

/// `f` scores every pair of a symbol of `s1` and a symbol of `s2`.
pub open spec fn every_pair_scored<F: Fn(char, char) -> Result<i32, AlignError>>(
    f: F,
    s1: Seq<char>,
    s2: Seq<char>,
) -> bool {
    forall|i: int, j: int|
        0 <= i < s1.len() && 0 <= j < s2.len() ==> accepts(f, #[trigger] s1[i], #[trigger] s2[j])
}

/// `f` rejects the pair of the symbols at `i` in `s1` and at `j` in `s2` with
/// the error `e`, and scores every pair before it, going through the symbols
/// of `s1` one by one and for each through the symbols of `s2`.
pub open spec fn first_rejected<F: Fn(char, char) -> Result<i32, AlignError>>(
    f: F,
    s1: Seq<char>,
    s2: Seq<char>,
    i: int,
    j: int,
    e: AlignError,
) -> bool {
    &&& 0 <= i < s1.len()
    &&& 0 <= j < s2.len()
    &&& f.ensures((s1[i], s2[j]), Err::<i32, AlignError>(e))
    &&& forall|k: int, l: int|
        0 <= k < s1.len() && 0 <= l < s2.len() && (k < i || (k == i && l < j)) ==> accepts(
            f,
            #[trigger] s1[k],
            #[trigger] s2[l],
        )
}

/// What building the tables of `s1` and `s2` yields: the two tables where `f`
/// scores every pair, else the error of the first pair that `f` rejects.
pub open spec fn is_build_of<F: Fn(char, char) -> Result<i32, AlignError>>(
    res: Result<(Vec<Vec<i32>>, Vec<Vec<Vec<Direction>>>), AlignError>,
    s1: Seq<char>,
    s2: Seq<char>,
    gap: int,
    f: F,
    mode: Algorithm,
) -> bool {
    match res {
        Ok((tab, dirs)) => {
            &&& every_pair_scored(f, s1, s2)
            &&& is_score_table(tab.deep_view(), s1, s2, gap, score_model(f), mode)
            &&& is_direction_table(dirs.deep_view(), s1, s2, gap, score_model(f), mode)
        },
        Err(e) => exists|i: int, j: int| #[trigger] first_rejected(f, s1, s2, i, j, e),
    }
}

/// The best of three sums, and for a local alignment no less than 0.
pub open spec fn best_sum(diagonal: int, up: int, left: int, mode: Algorithm) -> int {
    let best = larger(diagonal, larger(up, left));
    match mode {
        Algorithm::SmithWaterman => larger(best, 0),
        Algorithm::NeedlemanWunsch => best,
    }
}

/// The tags of a cell with the three sums and the score `best`, in the order
/// `Start`, `Diagonal`, `Up`, `Left`.
pub open spec fn tags_of(diagonal: int, up: int, left: int, best: int, mode: Algorithm) -> Seq<
    Direction,
> {
    tag_if(mode == Algorithm::SmithWaterman && best == 0, Direction::Start) + tag_if(
        diagonal == best,
        Direction::Diagonal,
    ) + tag_if(up == best, Direction::Up) + tag_if(left == best, Direction::Left)
}

/// Picks the best of the three sums of a cell and records every branch that
/// attains it.
fn pick_branches(diagonal: i64, up: i64, left: i64, mode: Algorithm) -> (picked: (
    i64,
    Vec<Direction>,
))
    ensures
        picked.0 == best_sum(diagonal as int, up as int, left as int, mode),
        picked.1@ == tags_of(diagonal as int, up as int, left as int, picked.0 as int, mode),
{
    let mut best: i64 = diagonal;
    if up > best {
        best = up;
    }
    if left > best {
        best = left;
    }
    let mut cell: Vec<Direction> = Vec::new();
    if mode == Algorithm::SmithWaterman {
        if best < 0 {
            best = 0;
        }
        if best == 0 {
            cell.push(Direction::Start);
        }
    }
    if diagonal == best {
        cell.push(Direction::Diagonal);
    }
    if up == best {
        cell.push(Direction::Up);
    }
    if left == best {
        cell.push(Direction::Left);
    }
    assert(cell@ =~= tags_of(diagonal as int, up as int, left as int, best as int, mode));
    (best, cell)
}

/// Builds the score table and the direction table of `s1` and `s2`.
///
/// The tables have one row for each prefix of `s1` and one column for each
/// prefix of `s2`. The score table holds in each cell the optimal score of
/// aligning the two prefixes, and the direction table holds every recurrence
/// branch that attains it, so that ties are kept. The interior cells are
/// filled row by row, and the call fails with the error of the first pair of
/// symbols that `get_score` rejects.
///
/// The scoring function must be a function in its contract, and every entry
/// of the score table must be an `i32`; `lemma_bounded_table_fits` derives
/// that from a bound on the gap penalty and the scores, and
/// `get_matrix_table` tests such a bound before it builds.
pub fn get_sequence_table<F>(
    s1: &str,
    s2: &str,
    gap_val: i32,
    get_score: F,
    algorithm: &Algorithm,
) -> (res: Result<(Vec<Vec<i32>>, Vec<Vec<Vec<Direction>>>), AlignError>) where
    F: Fn(char, char) -> Result<i32, AlignError>,

    requires
        scoring_is_total(get_score, s1@, s2@),
        scoring_is_determined(get_score),
        table_fits(s1@, s2@, gap_val as int, score_model(get_score), *algorithm),
    ensures
        is_build_of(res, s1@, s2@, gap_val as int, get_score, *algorithm),
{
    let a = symbols_of(s1);
    let b = symbols_of(s2);
    let n1 = a.len();
    let n2 = b.len();
    let mode = *algorithm;
    let local = mode == Algorithm::SmithWaterman;
    let ghost q1 = s1@;
    let ghost q2 = s2@;
    let ghost g = gap_val as int;
    let ghost score = score_model(get_score);

    let mut tab: Vec<Vec<i32>> = Vec::new();
    let mut dirs: Vec<Vec<Vec<Direction>>> = Vec::new();

    let mut row: Vec<i32> = Vec::new();
    let mut drow: Vec<Vec<Direction>> = Vec::new();
    let mut corner: Vec<Direction> = Vec::new();
    if local {
        corner.push(Direction::Start);
    }
    assert(corner@ =~= cell_dirs(q1, q2, g, score, mode, 0, 0));
    row.push(0);
    drow.push(corner);
    let mut j: usize = 0;
    while j < n2
        invariant
            n2 == q2.len(),
            j <= n2,
            g == gap_val as int,
            local == (mode == Algorithm::SmithWaterman),
            row@.len() == j + 1,
            drow@.len() == j + 1,
            table_fits(q1, q2, g, score, mode),
            forall|k: int| 0 <= k <= j ==> #[trigger] row@[k] == cell_score(q1, q2, g, score, mode, 0, k),
            forall|k: int| 0 <= k <= j ==> (#[trigger] drow@[k])@ == cell_dirs(q1, q2, g, score, mode, 0, k),
        decreases n2 - j,
    {
        j = j + 1;
        let mut cell: Vec<Direction> = Vec::new();
        let v: i32 = if local {
            cell.push(Direction::Start);
            0
        } else {
            cell.push(Direction::Left);
            proof {
                assert(row@[j - 1] == cell_score(q1, q2, g, score, mode, 0, j - 1));
                assert(g * (j - 1) + g == g * j) by (nonlinear_arith);
                assert(i32::MIN <= cell_score(q1, q2, g, score, mode, 0, j as int) <= i32::MAX);
            }
            row[j - 1] + gap_val
        };
        assert(cell@ =~= cell_dirs(q1, q2, g, score, mode, 0, j as int));
        row.push(v);
        drow.push(cell);
    }
    tab.push(row);
    dirs.push(drow);

    let mut i: usize = 0;
    while i < n1
        invariant
            q1 == s1@,
            q2 == s2@,
            n1 == q1.len(),
            n2 == q2.len(),
            a@ == q1,
            b@ == q2,
            i <= n1,
            g == gap_val as int,
            score == score_model(get_score),
            local == (mode == Algorithm::SmithWaterman),
            scoring_is_total(get_score, q1, q2),
            scoring_is_determined(get_score),
            table_fits(q1, q2, g, score, mode),
            tab@.len() == i + 1,
            dirs@.len() == i + 1,
            forall|r: int| 0 <= r <= i ==> (#[trigger] tab@[r])@.len() == n2 + 1,
            forall|r: int| 0 <= r <= i ==> (#[trigger] dirs@[r])@.len() == n2 + 1,
            forall|r: int, c: int|
                0 <= r <= i && 0 <= c <= n2 ==> #[trigger] tab@[r]@[c] == cell_score(
                    q1,
                    q2,
                    g,
                    score,
                    mode,
                    r,
                    c,
                ),
            forall|r: int, c: int|
                0 <= r <= i && 0 <= c <= n2 ==> (#[trigger] dirs@[r]@[c])@ == cell_dirs(
                    q1,
                    q2,
                    g,
                    score,
                    mode,
                    r,
                    c,
                ),
            forall|k: int, l: int|
                0 <= k < i && 0 <= l < n2 ==> accepts(get_score, #[trigger] q1[k], #[trigger] q2[l]),
        decreases n1 - i,
    {
        i = i + 1;
        let mut row: Vec<i32> = Vec::new();
        let mut drow: Vec<Vec<Direction>> = Vec::new();
        let mut edge: Vec<Direction> = Vec::new();
        let first: i32 = if local {
            edge.push(Direction::Start);
            0
        } else {
            edge.push(Direction::Up);
            proof {
                assert(tab@[i - 1]@[0] == cell_score(q1, q2, g, score, mode, i - 1, 0));
                assert(g * (i - 1) + g == g * i) by (nonlinear_arith);
                assert(i32::MIN <= cell_score(q1, q2, g, score, mode, i as int, 0) <= i32::MAX);
            }
            tab[i - 1][0] + gap_val
        };
        assert(edge@ =~= cell_dirs(q1, q2, g, score, mode, i as int, 0));
        row.push(first);
        drow.push(edge);
        let mut j: usize = 0;
        while j < n2
            invariant
                q1 == s1@,
                q2 == s2@,
                n1 == q1.len(),
                n2 == q2.len(),
                a@ == q1,
                b@ == q2,
                1 <= i <= n1,
                j <= n2,
                g == gap_val as int,
                score == score_model(get_score),
                local == (mode == Algorithm::SmithWaterman),
                scoring_is_total(get_score, q1, q2),
                scoring_is_determined(get_score),
                table_fits(q1, q2, g, score, mode),
                tab@.len() == i,
                (tab@[i - 1])@.len() == n2 + 1,
                row@.len() == j + 1,
                drow@.len() == j + 1,
                forall|c: int|
                    0 <= c <= n2 ==> #[trigger] tab@[i - 1]@[c] == cell_score(
                        q1,
                        q2,
                        g,
                        score,
                        mode,
                        i - 1,
                        c,
                    ),
                forall|c: int|
                    0 <= c <= j ==> #[trigger] row@[c] == cell_score(q1, q2, g, score, mode, i as int, c),
                forall|c: int|
                    0 <= c <= j ==> (#[trigger] drow@[c])@ == cell_dirs(
                        q1,
                        q2,
                        g,
                        score,
                        mode,
                        i as int,
                        c,
                    ),
                forall|k: int, l: int|
                    0 <= k < i - 1 && 0 <= l < n2 ==> accepts(
                        get_score,
                        #[trigger] q1[k],
                        #[trigger] q2[l],
                    ),
                forall|l: int| 0 <= l < j ==> accepts(get_score, q1[i - 1], #[trigger] q2[l]),
            decreases n2 - j,
        {
            j = j + 1;
            let x = a[i - 1];
            let y = b[j - 1];
            assert(x == q1[i - 1] && y == q2[j - 1]);
            assert(get_score.requires((q1[i - 1], q2[j - 1])));
            let outcome = get_score(x, y);
            assert(get_score.ensures((x, y), outcome));
            let sc: i32 = match outcome {
                Ok(v) => v,
                Err(e) => {
                    proof {
                        assert(first_rejected(get_score, q1, q2, i - 1, j - 1, e));
                    }
                    return Err(e);
                },
            };
            proof {
                assert(accepts(get_score, x, y));
                let chosen = choose|v: i32| get_score.ensures((x, y), Ok::<i32, AlignError>(v));
                assert(get_score.ensures((x, y), Ok::<i32, AlignError>(chosen)));
                assert(Ok::<i32, AlignError>(chosen) == outcome);
                assert(score(x, y) == sc as int);
            }
            let diagonal: i64 = tab[i - 1][j - 1] as i64 + sc as i64;
            let up: i64 = tab[i - 1][j] as i64 + gap_val as i64;
            let left: i64 = row[j - 1] as i64 + gap_val as i64;
            let (best, cell) = pick_branches(diagonal, up, left, mode);
            proof {
                assert(diagonal == diagonal_sum(q1, q2, g, score, mode, i as int, j as int));
                assert(up == up_sum(q1, q2, g, score, mode, i as int, j as int));
                assert(left == left_sum(q1, q2, g, score, mode, i as int, j as int));
                assert(best == cell_score(q1, q2, g, score, mode, i as int, j as int));
                assert(cell@ == cell_dirs(q1, q2, g, score, mode, i as int, j as int));
            }
            row.push(best as i32);
            drow.push(cell);
        }
        tab.push(row);
        dirs.push(drow);
    }
    proof {
        let t = tab.deep_view();
        let d = dirs.deep_view();
        assert forall|r: int| 0 <= r <= q1.len() implies (#[trigger] t[r]).len() == q2.len() + 1 by {
            assert(t[r] == tab@[r].deep_view());
        }
        assert forall|r: int, c: int| 0 <= r <= q1.len() && 0 <= c <= q2.len() implies #[trigger] t[r][c]
            == cell_score(q1, q2, g, score, mode, r, c) by {
            assert(t[r] == tab@[r].deep_view());
            assert(t[r][c] == tab@[r]@[c]);
        }
        assert forall|r: int| 0 <= r <= q1.len() implies (#[trigger] d[r]).len() == q2.len() + 1 by {
            assert(d[r] == dirs@[r].deep_view());
        }
        assert forall|r: int, c: int| 0 <= r <= q1.len() && 0 <= c <= q2.len() implies #[trigger] d[r][c]
            == cell_dirs(q1, q2, g, score, mode, r, c) by {
            assert(d[r] == dirs@[r].deep_view());
            assert(d[r][c] == dirs@[r]@[c].deep_view());
            assert(d[r][c] =~= dirs@[r]@[c]@);
        }
    }
    Ok((tab, dirs))
}

/// The scores of a substitution matrix as a function on pairs of symbols. A
/// pair with a symbol outside the alphabet counts 0.
pub open spec fn matrix_model(scores: [[i32; 4]; 4]) -> spec_fn(char, char) -> int {
    |a: char, b: char|
        match matrix_score(a, b, scores) {
            Ok(v) => v as int,
            Err(_) => 0int,
        }
}

/// The absolute value of an integer.
pub open spec fn magnitude(v: int) -> int {
    if v < 0 {
        -v
    } else {
        v
    }
}

/// The largest absolute value in a row of a substitution matrix.
pub open spec fn row_magnitude(row: [i32; 4]) -> int {
    larger(
        larger(magnitude(row[0] as int), magnitude(row[1] as int)),
        larger(magnitude(row[2] as int), magnitude(row[3] as int)),
    )
}

/// The largest absolute value among the gap penalty and the entries of a
/// substitution matrix.
pub open spec fn largest_magnitude(gap: int, scores: [[i32; 4]; 4]) -> int {
    larger(
        magnitude(gap),
        larger(
            larger(row_magnitude(scores[0]), row_magnitude(scores[1])),
            larger(row_magnitude(scores[2]), row_magnitude(scores[3])),
        ),
    )
}

/// Every pair of a symbol of `s1` and a symbol of `s2` has an entry in a
/// substitution matrix.
pub open spec fn pairs_in_alphabet(s1: Seq<char>, s2: Seq<char>) -> bool {
    forall|i: int, j: int|
        0 <= i < s1.len() && 0 <= j < s2.len() ==> symbol_index(#[trigger] s1[i]) is Some
            && symbol_index(#[trigger] s2[j]) is Some
}

/// What building the tables of `s1` and `s2` under a substitution matrix
/// yields: the two tables where every pair has an entry, else `InvalidSymbol`.
pub open spec fn is_matrix_build_of(
    res: Result<(Vec<Vec<i32>>, Vec<Vec<Vec<Direction>>>), AlignError>,
    s1: Seq<char>,
    s2: Seq<char>,
    gap: int,
    scores: [[i32; 4]; 4],
    mode: Algorithm,
) -> bool {
    match res {
        Ok((tab, dirs)) => {
            &&& pairs_in_alphabet(s1, s2)
            &&& is_score_table(tab.deep_view(), s1, s2, gap, matrix_model(scores), mode)
            &&& is_direction_table(dirs.deep_view(), s1, s2, gap, matrix_model(scores), mode)
        },
        Err(e) => e == AlignError::InvalidSymbol && !pairs_in_alphabet(s1, s2),
    }
}

/// The absolute value of `v`.
fn abs_of(v: i32) -> (m: i64)
    ensures
        m == magnitude(v as int),
{
    if v < 0 {
        -(v as i64)
    } else {
        v as i64
    }
}

/// The larger of `x` and `y`.
fn larger_of(x: i64, y: i64) -> (m: i64)
    ensures
        m == larger(x as int, y as int),
{
    if x >= y {
        x
    } else {
        y
    }
}

/// The largest absolute value in a row of a substitution matrix.
fn row_magnitude_of(row: &[i32; 4]) -> (m: i64)
    ensures
        m == row_magnitude(*row),
        0 <= m <= 0x8000_0000,
{
    larger_of(
        larger_of(abs_of(row[0]), abs_of(row[1])),
        larger_of(abs_of(row[2]), abs_of(row[3])),
    )
}

/// Computes the largest absolute value among the gap penalty and the entries
/// of a substitution matrix.
pub fn get_largest_magnitude(gap_val: i32, scores: &[[i32; 4]; 4]) -> (m: i64)
    ensures
        m == largest_magnitude(gap_val as int, *scores),
        0 <= m <= 0x8000_0000,
{
    larger_of(
        abs_of(gap_val),
        larger_of(
            larger_of(row_magnitude_of(&scores[0]), row_magnitude_of(&scores[1])),
            larger_of(row_magnitude_of(&scores[2]), row_magnitude_of(&scores[3])),
        ),
    )
}

/// Builds the score table and the direction table of `s1` and `s2` under a
/// substitution matrix, if the largest absolute value among the gap penalty
/// and the entries of the matrix, taken once for each symbol of the two
/// sequences, is an `i32`: no entry of the score table can then leave the
/// range of `i32`. Otherwise nothing is built and the result is `None`.
pub fn get_matrix_table(
    s1: &str,
    s2: &str,
    gap_val: i32,
    scores: [[i32; 4]; 4],
    algorithm: &Algorithm,
) -> (res: Option<Result<(Vec<Vec<i32>>, Vec<Vec<Vec<Direction>>>), AlignError>>)
    ensures
        res is None <==> largest_magnitude(gap_val as int, scores) * (s1@.len() + s2@.len())
            > i32::MAX,
        match res {
            Some(built) => is_matrix_build_of(built, s1@, s2@, gap_val as int, scores, *algorithm),
            None => true,
        },
{
    let bound = get_largest_magnitude(gap_val, &scores);
    let n1 = s1.unicode_len();
    let n2 = s2.unicode_len();
    assert((bound as int) * (n1 + n2) <= 0x8000_0000 * 0x2_0000_0000_0000_0000) by (nonlinear_arith)
        requires
            0 <= bound <= 0x8000_0000,
            0 <= n1 + n2 <= 0x2_0000_0000_0000_0000,
    ;
    let total: u128 = (bound as u128) * (n1 as u128 + n2 as u128);
    if total > 0x7fff_ffff {
        return None;
    }
    let get_score_fn = |c1: char, c2: char| -> (r: Result<i32, AlignError>)
        ensures
            r == matrix_score(c1, c2, scores),
        { get_score(c1, c2, scores) };
    let ghost f = score_model(get_score_fn);
    let ghost g = matrix_model(scores);
    proof {
        assert forall|k: int, l: int| 0 <= k < s1@.len() && 0 <= l < s2@.len() implies -bound
            <= #[trigger] f(s1@[k], s2@[l]) <= bound by {
            let a = s1@[k];
            let b = s2@[l];
            if accepts(get_score_fn, a, b) {
                let v = choose|v: i32| get_score_fn.ensures((a, b), Ok::<i32, AlignError>(v));
                assert(get_score_fn.ensures((a, b), Ok::<i32, AlignError>(v)));
                assert(matrix_score(a, b, scores) == Ok::<i32, AlignError>(v));
            }
        }
        assert(scores_within(s1@, s2@, f, bound as int));
        lemma_bounded_table_fits(s1@, s2@, gap_val as int, f, *algorithm, bound as int);
    }
    let built = get_sequence_table(s1, s2, gap_val, get_score_fn, algorithm);
    let ghost outcome = built;
    proof {
        match outcome {
            Ok((tab, dirs)) => {
                assert forall|k: int, l: int| 0 <= k < s1@.len() && 0 <= l < s2@.len() implies #[trigger] f(
                    s1@[k],
                    s2@[l],
                ) == g(s1@[k], s2@[l]) && symbol_index(s1@[k]) is Some && symbol_index(s2@[l]) is Some by {
                    let a = s1@[k];
                    let b = s2@[l];
                    assert(accepts(get_score_fn, a, b));
                    let v = choose|v: i32| get_score_fn.ensures((a, b), Ok::<i32, AlignError>(v));
                    assert(get_score_fn.ensures((a, b), Ok::<i32, AlignError>(v)));
                    assert(matrix_score(a, b, scores) == Ok::<i32, AlignError>(v));
                }
                assert(scores_agree(s1@, s2@, f, g));
                assert(pairs_in_alphabet(s1@, s2@)) by {
                    assert forall|k: int, l: int| 0 <= k < s1@.len() && 0 <= l < s2@.len() implies symbol_index(#[trigger] s1@[k]) is Some && symbol_index(#[trigger] s2@[l]) is Some by {
                        assert(f(s1@[k], s2@[l]) == g(s1@[k], s2@[l]));
                    }
                }
                lemma_tables_congruent(
                    tab.deep_view(),
                    dirs.deep_view(),
                    s1@,
                    s2@,
                    gap_val as int,
                    f,
                    g,
                    *algorithm,
                );
            },
            Err(e) => {
                let (i, j) = choose|i: int, j: int| #[trigger] first_rejected(get_score_fn, s1@, s2@, i, j, e);
                assert(first_rejected(get_score_fn, s1@, s2@, i, j, e));
                assert(matrix_score(s1@[i], s2@[j], scores) == Err::<i32, AlignError>(e));
            },
        }
    }
    Some(built)
}

} // verus!
