//! The walks through a direction table, and what the traceback lists of them.

use crate::algorithms::Direction;
use crate::alignment_laws::{
    diagonal_part, gap_free, here_part, left_part, lemma_alignment_parts, lemma_listed_part,
    part_of, up_part,
};
use crate::reconstruction::{alignments_from, has_tag};
use vstd::prelude::*;

verus! {

/// `w` is a walk from cell `(i, j)`: a sequence of tags, each a tag of the
/// cell that the walk has reached and leading to a cell of the table, that
/// ends at the corner or with the tag `Start`.
pub open spec fn is_walk(d: Seq<Seq<Seq<Direction>>>, i: int, j: int, w: Seq<Direction>) -> bool
    decreases w.len(),
{
    if i == 0 && j == 0 {
        w.len() == 0
    } else if w.len() == 0 {
        false
    } else {
        has_tag(d, i, j, w[0]) && match w[0] {
            Direction::Start => w.len() == 1,
            Direction::Diagonal => i > 0 && j > 0 && is_walk(d, i - 1, j - 1, w.drop_first()),
            Direction::Left => j > 0 && is_walk(d, i, j - 1, w.drop_first()),
            Direction::Up => i > 0 && is_walk(d, i - 1, j, w.drop_first()),
        }
    }
}

/// Every walk of `ws` with the tag `t` put before it.
pub open spec fn prepend_all(ws: Seq<Seq<Direction>>, t: Direction) -> Seq<Seq<Direction>> {
    Seq::new(ws.len(), |k: int| seq![t] + ws[k])
}

/// The walks from cell `(i, j)`, in the order in which the traceback takes
/// them: the walk that ends at once, then those that begin with `Diagonal`,
/// with `Left` and with `Up`.
pub open spec fn walks_from(d: Seq<Seq<Seq<Direction>>>, i: int, j: int) -> Seq<Seq<Direction>>
    decreases i + j,
{
    if i <= 0 && j <= 0 {
        seq![Seq::<Direction>::empty()]
    } else {
        let here = if has_tag(d, i, j, Direction::Start) {
            seq![seq![Direction::Start]]
        } else {
            Seq::<Seq<Direction>>::empty()
        };
        let diagonal = if has_tag(d, i, j, Direction::Diagonal) && i > 0 && j > 0 {
            prepend_all(walks_from(d, i - 1, j - 1), Direction::Diagonal)
        } else {
            Seq::<Seq<Direction>>::empty()
        };
        let left = if has_tag(d, i, j, Direction::Left) && j > 0 {
            prepend_all(walks_from(d, i, j - 1), Direction::Left)
        } else {
            Seq::<Seq<Direction>>::empty()
        };
        let up = if has_tag(d, i, j, Direction::Up) && i > 0 {
            prepend_all(walks_from(d, i - 1, j), Direction::Up)
        } else {
            Seq::<Seq<Direction>>::empty()
        };
        here + diagonal + left + up
    }
}

/// The alignment that the walk `w` from cell `(i, j)` spells, from left to
/// right: one column for each tag but `Start`.
pub open spec fn alignment_of(s1: Seq<char>, s2: Seq<char>, i: int, j: int, w: Seq<Direction>) -> (
    Seq<char>,
    Seq<char>,
)
    decreases w.len(),
{
    if w.len() == 0 {
        (Seq::<char>::empty(), Seq::<char>::empty())
    } else {
        match w[0] {
            Direction::Start => (Seq::<char>::empty(), Seq::<char>::empty()),
            Direction::Diagonal => {
                let p = alignment_of(s1, s2, i - 1, j - 1, w.drop_first());
                (p.0.push(s1[i - 1]), p.1.push(s2[j - 1]))
            },
            Direction::Left => {
                let p = alignment_of(s1, s2, i, j - 1, w.drop_first());
                (p.0.push('-'), p.1.push(s2[j - 1]))
            },
            Direction::Up => {
                let p = alignment_of(s1, s2, i - 1, j, w.drop_first());
                (p.0.push(s1[i - 1]), p.1.push('-'))
            },
        }
    }
}

/// The walks that begin with each tag, as `walks_from` lists them for a cell
/// other than the corner.
pub open spec fn walks_by(d: Seq<Seq<Seq<Direction>>>, i: int, j: int, t: Direction) -> Seq<
    Seq<Direction>,
> {
    match t {
        Direction::Start => if has_tag(d, i, j, Direction::Start) {
            seq![seq![Direction::Start]]
        } else {
            Seq::<Seq<Direction>>::empty()
        },
        Direction::Diagonal => if has_tag(d, i, j, Direction::Diagonal) && i > 0 && j > 0 {
            prepend_all(walks_from(d, i - 1, j - 1), Direction::Diagonal)
        } else {
            Seq::<Seq<Direction>>::empty()
        },
        Direction::Left => if has_tag(d, i, j, Direction::Left) && j > 0 {
            prepend_all(walks_from(d, i, j - 1), Direction::Left)
        } else {
            Seq::<Seq<Direction>>::empty()
        },
        Direction::Up => if has_tag(d, i, j, Direction::Up) && i > 0 {
            prepend_all(walks_from(d, i - 1, j), Direction::Up)
        } else {
            Seq::<Seq<Direction>>::empty()
        },
    }
}

/// The walks from a cell other than the corner, by their first tag.
pub proof fn lemma_walk_parts(d: Seq<Seq<Seq<Direction>>>, i: int, j: int)
    requires
        i > 0 || j > 0,
    ensures
        walks_from(d, i, j) == walks_by(d, i, j, Direction::Start) + walks_by(
            d,
            i,
            j,
            Direction::Diagonal,
        ) + walks_by(d, i, j, Direction::Left) + walks_by(d, i, j, Direction::Up),
        forall|t: Direction, x: int|
            0 <= x < walks_by(d, i, j, t).len() ==> (#[trigger] walks_by(d, i, j, t)[x]).len() > 0
                && walks_by(d, i, j, t)[x][0] == t,
{
}

/// The traceback lists as many alignments for a cell as there are walks from
/// it.
pub proof fn lemma_as_many_alignments_as_walks(
    s1: Seq<char>,
    s2: Seq<char>,
    d: Seq<Seq<Seq<Direction>>>,
    i: int,
    j: int,
)
    requires
        0 <= i,
        0 <= j,
    ensures
        alignments_from(s1, s2, d, i, j).len() == walks_from(d, i, j).len(),
    decreases i + j,
{
    if i > 0 || j > 0 {
        lemma_alignment_parts(s1, s2, d, i, j);
        lemma_walk_parts(d, i, j);
        if i > 0 && j > 0 {
            lemma_as_many_alignments_as_walks(s1, s2, d, i - 1, j - 1);
        }
        if j > 0 {
            lemma_as_many_alignments_as_walks(s1, s2, d, i, j - 1);
        }
        if i > 0 {
            lemma_as_many_alignments_as_walks(s1, s2, d, i - 1, j);
        }
        assert(here_part(d, i, j).len() == walks_by(d, i, j, Direction::Start).len());
        assert(diagonal_part(s1, s2, d, i, j).len() == walks_by(d, i, j, Direction::Diagonal).len());
        assert(left_part(s1, s2, d, i, j).len() == walks_by(d, i, j, Direction::Left).len());
        assert(up_part(s1, s2, d, i, j).len() == walks_by(d, i, j, Direction::Up).len());
    }
}

/// The alignment at a place of the traceback's list is the alignment that
/// the walk at that place spells.
#[verifier::rlimit(30)]
pub proof fn lemma_alignment_of_listed_walk(
    s1: Seq<char>,
    s2: Seq<char>,
    d: Seq<Seq<Seq<Direction>>>,
    i: int,
    j: int,
    x: int,
)
    requires
        0 <= i,
        0 <= j,
        0 <= x < walks_from(d, i, j).len(),
    ensures
        alignments_from(s1, s2, d, i, j).len() == walks_from(d, i, j).len(),
        alignments_from(s1, s2, d, i, j)[x] == alignment_of(s1, s2, i, j, walks_from(d, i, j)[x]),
    decreases i + j,
{
    lemma_as_many_alignments_as_walks(s1, s2, d, i, j);
    if i > 0 || j > 0 {
        lemma_walk_parts(d, i, j);
        lemma_listed_part(s1, s2, d, i, j, x);
        if i > 0 && j > 0 {
            lemma_as_many_alignments_as_walks(s1, s2, d, i - 1, j - 1);
        }
        if j > 0 {
            lemma_as_many_alignments_as_walks(s1, s2, d, i, j - 1);
        }
        let (t, y) = part_of(s1, s2, d, i, j, x);
        let w = walks_from(d, i, j)[x];
        let w0 = walks_by(d, i, j, Direction::Start);
        let w1 = walks_by(d, i, j, Direction::Diagonal);
        let w2 = walks_by(d, i, j, Direction::Left);
        let w3 = walks_by(d, i, j, Direction::Up);
        assert(w0.len() == here_part(d, i, j).len());
        assert(w1.len() == diagonal_part(s1, s2, d, i, j).len());
        assert(w2.len() == left_part(s1, s2, d, i, j).len());
        match t {
            Direction::Start => {
                assert(w == w0[y]);
            },
            Direction::Diagonal => {
                assert(w == w1[y]);
                assert(w.drop_first() =~= walks_from(d, i - 1, j - 1)[y]);
                lemma_alignment_of_listed_walk(s1, s2, d, i - 1, j - 1, y);
            },
            Direction::Left => {
                assert(w == w2[y]);
                assert(w.drop_first() =~= walks_from(d, i, j - 1)[y]);
                lemma_alignment_of_listed_walk(s1, s2, d, i, j - 1, y);
            },
            Direction::Up => {
                assert(w == w3[y]);
                assert(w.drop_first() =~= walks_from(d, i - 1, j)[y]);
                lemma_alignment_of_listed_walk(s1, s2, d, i - 1, j, y);
            },
        }
    }
}

/// The traceback lists one alignment for each walk, in the order of the
/// walks: the alignment that the walk spells.
pub proof fn lemma_alignments_are_walks(
    s1: Seq<char>,
    s2: Seq<char>,
    d: Seq<Seq<Seq<Direction>>>,
    i: int,
    j: int,
)
    requires
        0 <= i,
        0 <= j,
    ensures
        alignments_from(s1, s2, d, i, j).len() == walks_from(d, i, j).len(),
        forall|x: int|
            0 <= x < walks_from(d, i, j).len() ==> #[trigger] alignments_from(s1, s2, d, i, j)[x]
                == alignment_of(s1, s2, i, j, walks_from(d, i, j)[x]),
{
    lemma_as_many_alignments_as_walks(s1, s2, d, i, j);
    assert forall|x: int| 0 <= x < walks_from(d, i, j).len() implies #[trigger] alignments_from(
        s1,
        s2,
        d,
        i,
        j,
    )[x] == alignment_of(s1, s2, i, j, walks_from(d, i, j)[x]) by {
        lemma_alignment_of_listed_walk(s1, s2, d, i, j, x);
    }
}

/// Every sequence of tags that the traceback follows is a walk.
pub proof fn lemma_listed_are_walks(d: Seq<Seq<Seq<Direction>>>, i: int, j: int, x: int)
    requires
        0 <= i,
        0 <= j,
        0 <= x < walks_from(d, i, j).len(),
    ensures
        is_walk(d, i, j, walks_from(d, i, j)[x]),
    decreases i + j,
{
    if i > 0 || j > 0 {
        lemma_walk_parts(d, i, j);
        let w0 = walks_by(d, i, j, Direction::Start);
        let w1 = walks_by(d, i, j, Direction::Diagonal);
        let w2 = walks_by(d, i, j, Direction::Left);
        let w3 = walks_by(d, i, j, Direction::Up);
        let w = walks_from(d, i, j)[x];
        if x < w0.len() {
            assert(w == w0[x]);
        } else if x < w0.len() + w1.len() {
            let y = x - w0.len();
            assert(w == w1[y]);
            assert(w.drop_first() =~= walks_from(d, i - 1, j - 1)[y]);
            lemma_listed_are_walks(d, i - 1, j - 1, y);
        } else if x < w0.len() + w1.len() + w2.len() {
            let y = x - w0.len() - w1.len();
            assert(w == w2[y]);
            assert(w.drop_first() =~= walks_from(d, i, j - 1)[y]);
            lemma_listed_are_walks(d, i, j - 1, y);
        } else {
            let y = x - w0.len() - w1.len() - w2.len();
            assert(w == w3[y]);
            assert(w.drop_first() =~= walks_from(d, i - 1, j)[y]);
            lemma_listed_are_walks(d, i - 1, j, y);
        }
    }
}

/// Every walk is among those that the traceback follows.
pub proof fn lemma_walks_are_listed(d: Seq<Seq<Seq<Direction>>>, i: int, j: int, w: Seq<Direction>)
    requires
        0 <= i,
        0 <= j,
        is_walk(d, i, j, w),
    ensures
        walks_from(d, i, j).contains(w),
    decreases i + j,
{
    if i == 0 && j == 0 {
        assert(w =~= Seq::<Direction>::empty());
        assert(walks_from(d, i, j)[0] == w);
    } else {
        lemma_walk_parts(d, i, j);
        let w0 = walks_by(d, i, j, Direction::Start);
        let w1 = walks_by(d, i, j, Direction::Diagonal);
        let w2 = walks_by(d, i, j, Direction::Left);
        let w3 = walks_by(d, i, j, Direction::Up);
        let all = walks_from(d, i, j);
        match w[0] {
            Direction::Start => {
                assert(w =~= seq![Direction::Start]);
                assert(all[0] == w0[0]);
            },
            Direction::Diagonal => {
                lemma_walks_are_listed(d, i - 1, j - 1, w.drop_first());
                let rest = walks_from(d, i - 1, j - 1);
                let y = choose|y: int| 0 <= y < rest.len() && #[trigger] rest[y] == w.drop_first();
                assert(w1[y] =~= w);
                assert(all[w0.len() + y] == w1[y]);
            },
            Direction::Left => {
                lemma_walks_are_listed(d, i, j - 1, w.drop_first());
                let rest = walks_from(d, i, j - 1);
                let y = choose|y: int| 0 <= y < rest.len() && #[trigger] rest[y] == w.drop_first();
                assert(w2[y] =~= w);
                assert(all[w0.len() + w1.len() + y] == w2[y]);
            },
            Direction::Up => {
                lemma_walks_are_listed(d, i - 1, j, w.drop_first());
                let rest = walks_from(d, i - 1, j);
                let y = choose|y: int| 0 <= y < rest.len() && #[trigger] rest[y] == w.drop_first();
                assert(w3[y] =~= w);
                assert(all[w0.len() + w1.len() + w2.len() + y] == w3[y]);
            },
        }
    }
}

/// The traceback follows no walk twice.
#[verifier::rlimit(30)]
pub proof fn lemma_walks_listed_once(d: Seq<Seq<Seq<Direction>>>, i: int, j: int, x: int, y: int)
    requires
        0 <= i,
        0 <= j,
        0 <= x < y < walks_from(d, i, j).len(),
    ensures
        walks_from(d, i, j)[x] != walks_from(d, i, j)[y],
    decreases i + j,
{
    if i > 0 || j > 0 {
        lemma_walk_parts(d, i, j);
        let w0 = walks_by(d, i, j, Direction::Start);
        let w1 = walks_by(d, i, j, Direction::Diagonal);
        let w2 = walks_by(d, i, j, Direction::Left);
        let w3 = walks_by(d, i, j, Direction::Up);
        let all = walks_from(d, i, j);
        let b1 = w0.len();
        let b2 = b1 + w1.len();
        let b3 = b2 + w2.len();
        let px = if x < b1 {
            0int
        } else if x < b2 {
            1int
        } else if x < b3 {
            2int
        } else {
            3int
        };
        let py = if y < b1 {
            0int
        } else if y < b2 {
            1int
        } else if y < b3 {
            2int
        } else {
            3int
        };
        if x < b1 {
            assert(all[x] == w0[x]);
        } else if x < b2 {
            assert(all[x] == w1[x - b1]);
        } else if x < b3 {
            assert(all[x] == w2[x - b2]);
        } else {
            assert(all[x] == w3[x - b3]);
        }
        if y < b1 {
            assert(all[y] == w0[y]);
        } else if y < b2 {
            assert(all[y] == w1[y - b1]);
        } else if y < b3 {
            assert(all[y] == w2[y - b2]);
        } else {
            assert(all[y] == w3[y - b3]);
        }
        if px == py {
            if px == 1 {
                lemma_walks_listed_once(d, i - 1, j - 1, x - b1, y - b1);
                assert(all[x].drop_first() =~= walks_from(d, i - 1, j - 1)[x - b1]);
                assert(all[y].drop_first() =~= walks_from(d, i - 1, j - 1)[y - b1]);
            } else if px == 2 {
                lemma_walks_listed_once(d, i, j - 1, x - b2, y - b2);
                assert(all[x].drop_first() =~= walks_from(d, i, j - 1)[x - b2]);
                assert(all[y].drop_first() =~= walks_from(d, i, j - 1)[y - b2]);
            } else if px == 3 {
                lemma_walks_listed_once(d, i - 1, j, x - b3, y - b3);
                assert(all[x].drop_first() =~= walks_from(d, i - 1, j)[x - b3]);
                assert(all[y].drop_first() =~= walks_from(d, i - 1, j)[y - b3]);
            }
        } else {
            assert(all[x][0] != all[y][0]);
        }
    }
}

/// Two walks from one cell that spell the same alignment are one walk, where
/// the sequences hold no gap marker themselves.
pub proof fn lemma_walk_of_alignment(
    s1: Seq<char>,
    s2: Seq<char>,
    d: Seq<Seq<Seq<Direction>>>,
    i: int,
    j: int,
    v: Seq<Direction>,
    w: Seq<Direction>,
)
    requires
        0 <= i <= s1.len(),
        0 <= j <= s2.len(),
        gap_free(s1),
        gap_free(s2),
        is_walk(d, i, j, v),
        is_walk(d, i, j, w),
        alignment_of(s1, s2, i, j, v) == alignment_of(s1, s2, i, j, w),
    ensures
        v == w,
    decreases v.len(),
{
    if i == 0 && j == 0 {
        assert(v =~= w);
    } else {
        let p = alignment_of(s1, s2, i, j, v);
        let q = alignment_of(s1, s2, i, j, w);
        if v[0] == Direction::Start || w[0] == Direction::Start {
            assert(p.0.len() == 0 && q.0.len() == 0);
            assert(v[0] == Direction::Start && w[0] == Direction::Start);
            assert(v =~= w);
        } else {
            assert(p.0.last() == q.0.last() && p.1.last() == q.1.last());
            assert(v[0] == w[0]);
            let (a, b) = match v[0] {
                Direction::Diagonal => (i - 1, j - 1),
                Direction::Left => (i, j - 1),
                _ => (i - 1, j),
            };
            let p0 = alignment_of(s1, s2, a, b, v.drop_first());
            let q0 = alignment_of(s1, s2, a, b, w.drop_first());
            assert(p.0.drop_last() =~= p0.0 && p.1.drop_last() =~= p0.1);
            assert(q.0.drop_last() =~= q0.0 && q.1.drop_last() =~= q0.1);
            lemma_walk_of_alignment(s1, s2, d, a, b, v.drop_first(), w.drop_first());
            assert(v =~= seq![v[0]] + v.drop_first());
            assert(w =~= seq![w[0]] + w.drop_first());
        }
    }
}

/// The traceback lists no alignment twice for one cell, where the sequences
/// hold no gap marker themselves.
pub proof fn lemma_alignments_listed_once(
    s1: Seq<char>,
    s2: Seq<char>,
    d: Seq<Seq<Seq<Direction>>>,
    i: int,
    j: int,
    x: int,
    y: int,
)
    requires
        0 <= i <= s1.len(),
        0 <= j <= s2.len(),
        gap_free(s1),
        gap_free(s2),
        0 <= x < y < alignments_from(s1, s2, d, i, j).len(),
    ensures
        alignments_from(s1, s2, d, i, j)[x] != alignments_from(s1, s2, d, i, j)[y],
{
    lemma_alignments_are_walks(s1, s2, d, i, j);
    lemma_listed_are_walks(d, i, j, x);
    lemma_listed_are_walks(d, i, j, y);
    lemma_walks_listed_once(d, i, j, x, y);
    if alignments_from(s1, s2, d, i, j)[x] == alignments_from(s1, s2, d, i, j)[y] {
        lemma_walk_of_alignment(s1, s2, d, i, j, walks_from(d, i, j)[x], walks_from(d, i, j)[y]);
    }
}

} // verus!
