//! Laws of the traceback.

use crate::algorithms::{is_direction_table, Algorithm, Direction};
use crate::reconstruction::{
    alignments_at, alignments_from, empty_alignment, extend_all, first_n, has_tag, no_alignment,
};
use vstd::prelude::*;

verus! {

/// The symbols of an aligned sequence, without the gap markers.
pub open spec fn without_gaps(a: Seq<char>) -> Seq<char>
    decreases a.len(),
{
    if a.len() == 0 {
        a
    } else if a.last() == '-' {
        without_gaps(a.drop_last())
    } else {
        without_gaps(a.drop_last()).push(a.last())
    }
}

/// No symbol of `s` is the gap marker.
pub open spec fn gap_free(s: Seq<char>) -> bool {
    forall|k: int| 0 <= k < s.len() ==> s[k] != '-'
}

/// No cell `(a, b)` of the table with `a <= i` and `b <= j` has the tag
/// `Start`.
pub open spec fn start_free(d: Seq<Seq<Seq<Direction>>>, i: int, j: int) -> bool {
    forall|a: int, b: int| 0 <= a <= i && 0 <= b <= j ==> !has_tag(d, a, b, Direction::Start)
}

/// What `without_gaps` makes of a sequence with one more symbol.
pub proof fn lemma_without_gaps_push(a: Seq<char>, c: char)
    ensures
        without_gaps(a.push(c)) == if c == '-' {
            without_gaps(a)
        } else {
            without_gaps(a).push(c)
        },
{
    assert(a.push(c).drop_last() =~= a);
}

/// The alignment that ends at once at a cell with the tag `Start`: the first
/// of the four parts that `alignments_from` lists one after the other for a
/// cell other than the corner.
pub open spec fn here_part(d: Seq<Seq<Seq<Direction>>>, i: int, j: int) -> Seq<
    (Seq<char>, Seq<char>),
> {
    if has_tag(d, i, j, Direction::Start) {
        empty_alignment()
    } else {
        no_alignment()
    }
}

/// The alignments through the cell above and to the left.
pub open spec fn diagonal_part(
    s1: Seq<char>,
    s2: Seq<char>,
    d: Seq<Seq<Seq<Direction>>>,
    i: int,
    j: int,
) -> Seq<(Seq<char>, Seq<char>)> {
    if has_tag(d, i, j, Direction::Diagonal) && i > 0 && j > 0 {
        extend_all(alignments_from(s1, s2, d, i - 1, j - 1), s1[i - 1], s2[j - 1])
    } else {
        no_alignment()
    }
}

/// The alignments through the cell to the left.
pub open spec fn left_part(
    s1: Seq<char>,
    s2: Seq<char>,
    d: Seq<Seq<Seq<Direction>>>,
    i: int,
    j: int,
) -> Seq<(Seq<char>, Seq<char>)> {
    if has_tag(d, i, j, Direction::Left) && j > 0 {
        extend_all(alignments_from(s1, s2, d, i, j - 1), '-', s2[j - 1])
    } else {
        no_alignment()
    }
}

/// The alignments through the cell above.
pub open spec fn up_part(
    s1: Seq<char>,
    s2: Seq<char>,
    d: Seq<Seq<Seq<Direction>>>,
    i: int,
    j: int,
) -> Seq<(Seq<char>, Seq<char>)> {
    if has_tag(d, i, j, Direction::Up) && i > 0 {
        extend_all(alignments_from(s1, s2, d, i - 1, j), s1[i - 1], '-')
    } else {
        no_alignment()
    }
}

/// The alignments that end at a cell other than the corner are those of its
/// four parts, one part after the other.
pub proof fn lemma_alignment_parts(
    s1: Seq<char>,
    s2: Seq<char>,
    d: Seq<Seq<Seq<Direction>>>,
    i: int,
    j: int,
)
    requires
        i > 0 || j > 0,
    ensures
        alignments_from(s1, s2, d, i, j) == here_part(d, i, j) + diagonal_part(s1, s2, d, i, j)
            + left_part(s1, s2, d, i, j) + up_part(s1, s2, d, i, j),
{
}

/// In every alignment of `ps` the two rows have one length.
pub open spec fn rows_match(ps: Seq<(Seq<char>, Seq<char>)>) -> bool {
    forall|x: int| 0 <= x < ps.len() ==> (#[trigger] ps[x]).0.len() == ps[x].1.len()
}

/// In every alignment that ends at a cell the two rows have one length.
pub proof fn lemma_rows_match(
    s1: Seq<char>,
    s2: Seq<char>,
    d: Seq<Seq<Seq<Direction>>>,
    i: int,
    j: int,
)
    requires
        0 <= i,
        0 <= j,
    ensures
        rows_match(alignments_from(s1, s2, d, i, j)),
    decreases i + j,
{
    if i > 0 || j > 0 {
        lemma_alignment_parts(s1, s2, d, i, j);
        if i > 0 && j > 0 {
            lemma_rows_match(s1, s2, d, i - 1, j - 1);
        }
        if j > 0 {
            lemma_rows_match(s1, s2, d, i, j - 1);
        }
        if i > 0 {
            lemma_rows_match(s1, s2, d, i - 1, j);
        }
        let all = alignments_from(s1, s2, d, i, j);
        let here = here_part(d, i, j);
        let diagonal = diagonal_part(s1, s2, d, i, j);
        let left = left_part(s1, s2, d, i, j);
        let up = up_part(s1, s2, d, i, j);
        assert forall|x: int| 0 <= x < all.len() implies (#[trigger] all[x]).0.len()
            == all[x].1.len() by {
            if x < here.len() {
                assert(all[x] == here[x]);
            } else if x < here.len() + diagonal.len() {
                let y = x - here.len();
                assert(all[x] == diagonal[y]);
                assert(alignments_from(s1, s2, d, i - 1, j - 1)[y].0.len() == alignments_from(
                    s1,
                    s2,
                    d,
                    i - 1,
                    j - 1,
                )[y].1.len());
            } else if x < here.len() + diagonal.len() + left.len() {
                let y = x - here.len() - diagonal.len();
                assert(all[x] == left[y]);
                assert(alignments_from(s1, s2, d, i, j - 1)[y].0.len() == alignments_from(
                    s1,
                    s2,
                    d,
                    i,
                    j - 1,
                )[y].1.len());
            } else {
                let y = x - here.len() - diagonal.len() - left.len();
                assert(all[x] == up[y]);
                assert(alignments_from(s1, s2, d, i - 1, j)[y].0.len() == alignments_from(
                    s1,
                    s2,
                    d,
                    i - 1,
                    j,
                )[y].1.len());
            }
        }
    }
}

/// In every alignment that ends at one of the cells `roots` the two rows
/// have one length.
pub proof fn lemma_rows_match_at(
    s1: Seq<char>,
    s2: Seq<char>,
    d: Seq<Seq<Seq<Direction>>>,
    roots: Seq<(usize, usize)>,
)
    ensures
        rows_match(alignments_at(s1, s2, d, roots)),
    decreases roots.len(),
{
    if roots.len() > 0 {
        lemma_rows_match_at(s1, s2, d, roots.drop_last());
        lemma_rows_match(s1, s2, d, roots.last().0 as int, roots.last().1 as int);
        let before = alignments_at(s1, s2, d, roots.drop_last());
        let last = alignments_from(s1, s2, d, roots.last().0 as int, roots.last().1 as int);
        let all = alignments_at(s1, s2, d, roots);
        assert forall|x: int| 0 <= x < all.len() implies (#[trigger] all[x]).0.len()
            == all[x].1.len() by {
            if x < before.len() {
                assert(all[x] == before[x]);
            } else {
                assert(all[x] == last[x - before.len()]);
            }
        }
    }
}

/// The first alignments of a list whose rows match have rows that match.
pub proof fn lemma_rows_match_first_n(ps: Seq<(Seq<char>, Seq<char>)>, k: int)
    requires
        rows_match(ps),
    ensures
        rows_match(first_n(ps, k)),
{
    let some = first_n(ps, k);
    assert forall|x: int| 0 <= x < some.len() implies (#[trigger] some[x]).0.len()
        == some[x].1.len() by {
        assert(some[x] == ps[x]);
    }
}

/// Every alignment that ends at a cell has two rows of one length, and
/// without its gap markers each row is a stretch of its sequence that ends
/// at the cell, where the sequences hold no gap marker themselves.
#[verifier::rlimit(30)]
pub proof fn lemma_alignment_spells_substrings(
    s1: Seq<char>,
    s2: Seq<char>,
    d: Seq<Seq<Seq<Direction>>>,
    i: int,
    j: int,
    x: int,
)
    requires
        0 <= i <= s1.len(),
        0 <= j <= s2.len(),
        gap_free(s1),
        gap_free(s2),
        0 <= x < alignments_from(s1, s2, d, i, j).len(),
    ensures
        alignments_from(s1, s2, d, i, j)[x].0.len() == alignments_from(s1, s2, d, i, j)[x].1.len(),
        exists|k: int, l: int|
            0 <= k <= i && 0 <= l <= j && without_gaps(alignments_from(s1, s2, d, i, j)[x].0)
                == #[trigger] s1.subrange(k, i) && without_gaps(
                alignments_from(s1, s2, d, i, j)[x].1,
            ) == #[trigger] s2.subrange(l, j),
    decreases i + j,
{
    let all = alignments_from(s1, s2, d, i, j);
    let p = all[x];
    if i == 0 && j == 0 {
        assert(s1.subrange(0, 0) =~= Seq::<char>::empty());
        assert(s2.subrange(0, 0) =~= Seq::<char>::empty());
        assert(without_gaps(p.0) == s1.subrange(0, 0) && without_gaps(p.1) == s2.subrange(0, 0));
    } else {
        lemma_alignment_parts(s1, s2, d, i, j);
        let here = here_part(d, i, j);
        let diagonal = diagonal_part(s1, s2, d, i, j);
        let left = left_part(s1, s2, d, i, j);
        let up = up_part(s1, s2, d, i, j);
        if x < here.len() {
            assert(p == here[x]);
            assert(s1.subrange(i, i) =~= Seq::<char>::empty());
            assert(s2.subrange(j, j) =~= Seq::<char>::empty());
            assert(without_gaps(p.0) == s1.subrange(i, i) && without_gaps(p.1) == s2.subrange(j, j));
        } else if x < here.len() + diagonal.len() {
            let y = x - here.len();
            assert(p == diagonal[y]);
            let q = alignments_from(s1, s2, d, i - 1, j - 1)[y];
            lemma_alignment_spells_substrings(s1, s2, d, i - 1, j - 1, y);
            let (k, l) = choose|k: int, l: int|
                0 <= k <= i - 1 && 0 <= l <= j - 1 && without_gaps(q.0) == #[trigger] s1.subrange(
                    k,
                    i - 1,
                ) && without_gaps(q.1) == #[trigger] s2.subrange(l, j - 1);
            lemma_without_gaps_push(q.0, s1[i - 1]);
            lemma_without_gaps_push(q.1, s2[j - 1]);
            assert(s1.subrange(k, i - 1).push(s1[i - 1]) =~= s1.subrange(k, i));
            assert(s2.subrange(l, j - 1).push(s2[j - 1]) =~= s2.subrange(l, j));
            assert(without_gaps(p.0) == s1.subrange(k, i) && without_gaps(p.1) == s2.subrange(l, j));
        } else if x < here.len() + diagonal.len() + left.len() {
            let y = x - here.len() - diagonal.len();
            assert(p == left[y]);
            let q = alignments_from(s1, s2, d, i, j - 1)[y];
            lemma_alignment_spells_substrings(s1, s2, d, i, j - 1, y);
            let (k, l) = choose|k: int, l: int|
                0 <= k <= i && 0 <= l <= j - 1 && without_gaps(q.0) == #[trigger] s1.subrange(k, i)
                    && without_gaps(q.1) == #[trigger] s2.subrange(l, j - 1);
            lemma_without_gaps_push(q.0, '-');
            lemma_without_gaps_push(q.1, s2[j - 1]);
            assert(s2.subrange(l, j - 1).push(s2[j - 1]) =~= s2.subrange(l, j));
            assert(without_gaps(p.0) == s1.subrange(k, i) && without_gaps(p.1) == s2.subrange(l, j));
        } else {
            let y = x - here.len() - diagonal.len() - left.len();
            assert(p == up[y]);
            let q = alignments_from(s1, s2, d, i - 1, j)[y];
            lemma_alignment_spells_substrings(s1, s2, d, i - 1, j, y);
            let (k, l) = choose|k: int, l: int|
                0 <= k <= i - 1 && 0 <= l <= j && without_gaps(q.0) == #[trigger] s1.subrange(
                    k,
                    i - 1,
                ) && without_gaps(q.1) == #[trigger] s2.subrange(l, j);
            lemma_without_gaps_push(q.0, s1[i - 1]);
            lemma_without_gaps_push(q.1, '-');
            assert(s1.subrange(k, i - 1).push(s1[i - 1]) =~= s1.subrange(k, i));
            assert(without_gaps(p.0) == s1.subrange(k, i) && without_gaps(p.1) == s2.subrange(l, j));
        }
    }
}

/// Where no cell on the way has the tag `Start`, every alignment that ends
/// at a cell spells, without its gap markers, the whole of the two prefixes
/// that end at the cell, where the sequences hold no gap marker themselves.
pub proof fn lemma_alignment_spells_prefixes(
    s1: Seq<char>,
    s2: Seq<char>,
    d: Seq<Seq<Seq<Direction>>>,
    i: int,
    j: int,
    x: int,
)
    requires
        0 <= i <= s1.len(),
        0 <= j <= s2.len(),
        gap_free(s1),
        gap_free(s2),
        start_free(d, i, j),
        0 <= x < alignments_from(s1, s2, d, i, j).len(),
    ensures
        without_gaps(alignments_from(s1, s2, d, i, j)[x].0) == s1.take(i),
        without_gaps(alignments_from(s1, s2, d, i, j)[x].1) == s2.take(j),
    decreases i + j,
{
    let all = alignments_from(s1, s2, d, i, j);
    let p = all[x];
    if i == 0 && j == 0 {
        assert(s1.take(0) =~= Seq::<char>::empty());
        assert(s2.take(0) =~= Seq::<char>::empty());
    } else {
        lemma_alignment_parts(s1, s2, d, i, j);
        let here = here_part(d, i, j);
        let diagonal = diagonal_part(s1, s2, d, i, j);
        let left = left_part(s1, s2, d, i, j);
        let up = up_part(s1, s2, d, i, j);
        assert(!has_tag(d, i, j, Direction::Start));
        assert(here.len() == 0);
        if x < diagonal.len() {
            assert(p == diagonal[x]);
            let q = alignments_from(s1, s2, d, i - 1, j - 1)[x];
            lemma_alignment_spells_prefixes(s1, s2, d, i - 1, j - 1, x);
            lemma_without_gaps_push(q.0, s1[i - 1]);
            lemma_without_gaps_push(q.1, s2[j - 1]);
            assert(s1.take(i - 1).push(s1[i - 1]) =~= s1.take(i));
            assert(s2.take(j - 1).push(s2[j - 1]) =~= s2.take(j));
        } else if x < diagonal.len() + left.len() {
            let y = x - diagonal.len();
            assert(p == left[y]);
            let q = alignments_from(s1, s2, d, i, j - 1)[y];
            lemma_alignment_spells_prefixes(s1, s2, d, i, j - 1, y);
            lemma_without_gaps_push(q.0, '-');
            lemma_without_gaps_push(q.1, s2[j - 1]);
            assert(s2.take(j - 1).push(s2[j - 1]) =~= s2.take(j));
        } else {
            let y = x - diagonal.len() - left.len();
            assert(p == up[y]);
            let q = alignments_from(s1, s2, d, i - 1, j)[y];
            lemma_alignment_spells_prefixes(s1, s2, d, i - 1, j, y);
            lemma_without_gaps_push(q.0, s1[i - 1]);
            lemma_without_gaps_push(q.1, '-');
            assert(s1.take(i - 1).push(s1[i - 1]) =~= s1.take(i));
        }
    }
}

/// The direction table of a global alignment has the tag `Start` nowhere.
pub proof fn lemma_global_table_is_start_free(
    d: Seq<Seq<Seq<Direction>>>,
    s1: Seq<char>,
    s2: Seq<char>,
    gap: int,
    score: spec_fn(char, char) -> int,
)
    requires
        is_direction_table(d, s1, s2, gap, score, Algorithm::NeedlemanWunsch),
    ensures
        start_free(d, s1.len() as int, s2.len() as int),
{
}

/// A cap that is no less than the number of alignments leaves out none.
pub proof fn lemma_cap_leaves_out_none<A>(all: Seq<A>, cap: int)
    requires
        cap >= all.len(),
    ensures
        first_n(all, cap) == all,
{
}

/// A cap is kept: no more come out than it allows, and no more than there
/// are.
pub proof fn lemma_cap_is_kept<A>(all: Seq<A>, cap: int)
    requires
        cap >= 0,
    ensures
        first_n(all, cap).len() <= cap,
        first_n(all, cap).len() <= all.len(),
        cap == 0 ==> first_n(all, cap).len() == 0,
{
}

/// Two tables have the same tags in every cell `(a, b)` with `a <= i` and
/// `b <= j`, in whatever order and however often each cell holds them.
pub open spec fn same_tags(
    d1: Seq<Seq<Seq<Direction>>>,
    d2: Seq<Seq<Seq<Direction>>>,
    i: int,
    j: int,
) -> bool {
    forall|a: int, b: int, t: Direction|
        0 <= a <= i && 0 <= b <= j ==> #[trigger] has_tag(d1, a, b, t) == has_tag(d2, a, b, t)
}

/// The alignments that end at a cell depend on the sets of tags alone: the
/// order of the tags in a cell and tags held twice change nothing.
pub proof fn lemma_alignments_depend_on_tags(
    s1: Seq<char>,
    s2: Seq<char>,
    d1: Seq<Seq<Seq<Direction>>>,
    d2: Seq<Seq<Seq<Direction>>>,
    i: int,
    j: int,
)
    requires
        0 <= i,
        0 <= j,
        same_tags(d1, d2, i, j),
    ensures
        alignments_from(s1, s2, d1, i, j) == alignments_from(s1, s2, d2, i, j),
    decreases i + j,
{
    if i > 0 || j > 0 {
        assert(has_tag(d1, i, j, Direction::Start) == has_tag(d2, i, j, Direction::Start));
        assert(has_tag(d1, i, j, Direction::Diagonal) == has_tag(d2, i, j, Direction::Diagonal));
        assert(has_tag(d1, i, j, Direction::Left) == has_tag(d2, i, j, Direction::Left));
        assert(has_tag(d1, i, j, Direction::Up) == has_tag(d2, i, j, Direction::Up));
        if i > 0 && j > 0 {
            lemma_alignments_depend_on_tags(s1, s2, d1, d2, i - 1, j - 1);
        }
        if j > 0 {
            lemma_alignments_depend_on_tags(s1, s2, d1, d2, i, j - 1);
        }
        if i > 0 {
            lemma_alignments_depend_on_tags(s1, s2, d1, d2, i - 1, j);
        }
    }
}

/// The cell that the tag `t` leads to from cell `(i, j)`.
pub open spec fn source_cell(i: int, j: int, t: Direction) -> (int, int) {
    match t {
        Direction::Start => (i, j),
        Direction::Diagonal => (i - 1, j - 1),
        Direction::Left => (i, j - 1),
        Direction::Up => (i - 1, j),
    }
}

/// The column that a step along the tag `t` to cell `(i, j)` adds.
pub open spec fn step_column(s1: Seq<char>, s2: Seq<char>, i: int, j: int, t: Direction) -> (
    char,
    char,
) {
    match t {
        Direction::Start => ('-', '-'),
        Direction::Diagonal => (s1[i - 1], s2[j - 1]),
        Direction::Left => ('-', s2[j - 1]),
        Direction::Up => (s1[i - 1], '-'),
    }
}

/// The alignment `q` followed by the column of a step along the tag `t` to
/// cell `(i, j)`.
pub open spec fn step_from(
    s1: Seq<char>,
    s2: Seq<char>,
    i: int,
    j: int,
    t: Direction,
    q: (Seq<char>, Seq<char>),
) -> (Seq<char>, Seq<char>) {
    (q.0.push(step_column(s1, s2, i, j, t).0), q.1.push(step_column(s1, s2, i, j, t).1))
}

/// The tag through which the alignment at place `x` among those of a cell
/// other than the corner comes, and its place among the alignments of the
/// cell that the tag leads to.
pub open spec fn part_of(
    s1: Seq<char>,
    s2: Seq<char>,
    d: Seq<Seq<Seq<Direction>>>,
    i: int,
    j: int,
    x: int,
) -> (Direction, int) {
    let b1 = here_part(d, i, j).len() as int;
    let b2 = b1 + diagonal_part(s1, s2, d, i, j).len();
    let b3 = b2 + left_part(s1, s2, d, i, j).len();
    if x < b1 {
        (Direction::Start, x)
    } else if x < b2 {
        (Direction::Diagonal, x - b1)
    } else if x < b3 {
        (Direction::Left, x - b2)
    } else {
        (Direction::Up, x - b3)
    }
}

/// Every alignment that ends at a cell other than the corner comes through a
/// tag of the cell: it has no column where the tag is `Start`, and else it is
/// an alignment that ends at the cell that the tag leads to, followed by the
/// column of the step.
pub proof fn lemma_listed_part(
    s1: Seq<char>,
    s2: Seq<char>,
    d: Seq<Seq<Seq<Direction>>>,
    i: int,
    j: int,
    x: int,
)
    requires
        0 <= i,
        0 <= j,
        i > 0 || j > 0,
        0 <= x < alignments_from(s1, s2, d, i, j).len(),
    ensures
        has_tag(d, i, j, part_of(s1, s2, d, i, j, x).0),
        part_of(s1, s2, d, i, j, x).0 == Direction::Start ==> alignments_from(s1, s2, d, i, j)[x] == (
            Seq::<char>::empty(),
            Seq::<char>::empty(),
        ),
        part_of(s1, s2, d, i, j, x).0 != Direction::Start ==> ({
            let t = part_of(s1, s2, d, i, j, x).0;
            let y = part_of(s1, s2, d, i, j, x).1;
            let (a, b) = source_cell(i, j, t);
            &&& 0 <= a
            &&& 0 <= b
            &&& 0 <= y < alignments_from(s1, s2, d, a, b).len()
            &&& alignments_from(s1, s2, d, i, j)[x] == step_from(
                s1,
                s2,
                i,
                j,
                t,
                alignments_from(s1, s2, d, a, b)[y],
            )
        }),
{
    lemma_alignment_parts(s1, s2, d, i, j);
    let all = alignments_from(s1, s2, d, i, j);
    let here = here_part(d, i, j);
    let diagonal = diagonal_part(s1, s2, d, i, j);
    let left = left_part(s1, s2, d, i, j);
    let up = up_part(s1, s2, d, i, j);
    let (t, y) = part_of(s1, s2, d, i, j, x);
    match t {
        Direction::Start => {
            assert(all[x] == here[y]);
        },
        Direction::Diagonal => {
            assert(all[x] == diagonal[y]);
        },
        Direction::Left => {
            assert(all[x] == left[y]);
        },
        Direction::Up => {
            assert(all[x] == up[y]);
        },
    }
}

/// An alignment that ends at the cell that a tag of a cell leads to,
/// followed by the column of the step, is among the alignments that end at
/// the cell.
pub proof fn lemma_step_is_listed(
    s1: Seq<char>,
    s2: Seq<char>,
    d: Seq<Seq<Seq<Direction>>>,
    i: int,
    j: int,
    t: Direction,
    q: (Seq<char>, Seq<char>),
)
    requires
        t != Direction::Start,
        has_tag(d, i, j, t),
        0 <= source_cell(i, j, t).0,
        0 <= source_cell(i, j, t).1,
        alignments_from(s1, s2, d, source_cell(i, j, t).0, source_cell(i, j, t).1).contains(q),
    ensures
        alignments_from(s1, s2, d, i, j).contains(step_from(s1, s2, i, j, t, q)),
{
    lemma_alignment_parts(s1, s2, d, i, j);
    let all = alignments_from(s1, s2, d, i, j);
    let here = here_part(d, i, j);
    let diagonal = diagonal_part(s1, s2, d, i, j);
    let left = left_part(s1, s2, d, i, j);
    let up = up_part(s1, s2, d, i, j);
    let before = alignments_from(s1, s2, d, source_cell(i, j, t).0, source_cell(i, j, t).1);
    let z = choose|z: int| 0 <= z < before.len() && #[trigger] before[z] == q;
    let p = step_from(s1, s2, i, j, t, q);
    match t {
        Direction::Start => {},
        Direction::Diagonal => {
            assert(diagonal[z] == p);
            assert(all[here.len() + z] == p);
        },
        Direction::Left => {
            assert(left[z] == p);
            assert(all[here.len() + diagonal.len() + z] == p);
        },
        Direction::Up => {
            assert(up[z] == p);
            assert(all[here.len() + diagonal.len() + left.len() + z] == p);
        },
    }
}

/// The alignment without columns is among those that end at the corner and
/// at every cell with the tag `Start`.
pub proof fn lemma_empty_is_listed(
    s1: Seq<char>,
    s2: Seq<char>,
    d: Seq<Seq<Seq<Direction>>>,
    i: int,
    j: int,
)
    requires
        0 <= i,
        0 <= j,
        (i == 0 && j == 0) || has_tag(d, i, j, Direction::Start),
    ensures
        alignments_from(s1, s2, d, i, j).contains((Seq::<char>::empty(), Seq::<char>::empty())),
{
    let all = alignments_from(s1, s2, d, i, j);
    if i > 0 || j > 0 {
        lemma_alignment_parts(s1, s2, d, i, j);
        assert(all[0] == here_part(d, i, j)[0]);
    }
    assert(all[0] == (Seq::<char>::empty(), Seq::<char>::empty()));
}

} // verus!
