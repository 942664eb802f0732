//! Traceback: the optimal alignments that a direction table describes.

use crate::algorithms::{larger, Algorithm, Direction};
use crate::alignment_laws::{
    lemma_rows_match, lemma_rows_match_at, lemma_rows_match_first_n, rows_match,
};
use crate::error::AlignError;
use crate::maxima::lemma_max_cells;
use crate::text::{reversed_string, symbols_of};
use vstd::prelude::*;

verus! {

/// Every pair of `ps` with the column `(x, y)` appended.
pub open spec fn extend_all(ps: Seq<(Seq<char>, Seq<char>)>, x: char, y: char) -> Seq<
    (Seq<char>, Seq<char>),
> {
    Seq::new(ps.len(), |k: int| (ps[k].0.push(x), ps[k].1.push(y)))
}

/// The one alignment without columns.
pub open spec fn empty_alignment() -> Seq<(Seq<char>, Seq<char>)> {
    seq![(Seq::<char>::empty(), Seq::<char>::empty())]
}

/// No alignment.
pub open spec fn no_alignment() -> Seq<(Seq<char>, Seq<char>)> {
    Seq::<(Seq<char>, Seq<char>)>::empty()
}

/// The table `d` has the tag `t` in cell `(i, j)`.
pub open spec fn has_tag(d: Seq<Seq<Seq<Direction>>>, i: int, j: int, t: Direction) -> bool {
    0 <= i < d.len() && 0 <= j < d[i].len() && d[i][j].contains(t)
}

/// The alignments that end at cell `(i, j)` of the direction table `d`, each
/// written from left to right with `-` for a gap.
///
/// At the corner `(0, 0)` there is the one alignment without columns.
/// Elsewhere each tag of the cell roots its own alignments, in this order:
/// `Start` ends the walk, so it gives the alignment without columns;
/// `Diagonal` gives the alignments that end at `(i - 1, j - 1)`, each followed
/// by the pair of the last symbols; `Left` gives those that end at
/// `(i, j - 1)`, each followed by a gap over the last symbol of `s2`; `Up`
/// gives those that end at `(i - 1, j)`, each followed by the last symbol of
/// `s1` over a gap. A tag that leads out of the table roots nothing.
pub open spec fn alignments_from(
    s1: Seq<char>,
    s2: Seq<char>,
    d: Seq<Seq<Seq<Direction>>>,
    i: int,
    j: int,
) -> Seq<(Seq<char>, Seq<char>)>
    decreases i + j,
{
    if i <= 0 && j <= 0 {
        empty_alignment()
    } else {
        let here = if has_tag(d, i, j, Direction::Start) {
            empty_alignment()
        } else {
            no_alignment()
        };
        let diagonal = if has_tag(d, i, j, Direction::Diagonal) && i > 0 && j > 0 {
            extend_all(alignments_from(s1, s2, d, i - 1, j - 1), s1[i - 1], s2[j - 1])
        } else {
            no_alignment()
        };
        let left = if has_tag(d, i, j, Direction::Left) && j > 0 {
            extend_all(alignments_from(s1, s2, d, i, j - 1), '-', s2[j - 1])
        } else {
            no_alignment()
        };
        let up = if has_tag(d, i, j, Direction::Up) && i > 0 {
            extend_all(alignments_from(s1, s2, d, i - 1, j), s1[i - 1], '-')
        } else {
            no_alignment()
        };
        here + diagonal + left + up
    }
}

/// The first `k` elements of `s`, or all of `s` if it has no more than `k`.
pub open spec fn first_n<A>(s: Seq<A>, k: int) -> Seq<A> {
    if k >= s.len() {
        s
    } else if k <= 0 {
        Seq::<A>::empty()
    } else {
        s.take(k)
    }
}

/// The table `d` has every cell `(r, c)` with `r <= n1` and `c <= n2`.
pub open spec fn covers(d: Seq<Seq<Seq<Direction>>>, n1: int, n2: int) -> bool {
    &&& d.len() > n1
    &&& forall|r: int| 0 <= r <= n1 ==> (#[trigger] d[r]).len() > n2
}

/// A cell of the direction table, seen through the table's view.
pub proof fn lemma_cell_view(dirs: &Vec<Vec<Vec<Direction>>>, i: int, j: int)
    requires
        0 <= i < dirs@.len(),
        0 <= j < dirs@[i]@.len(),
    ensures
        dirs.deep_view().len() == dirs@.len(),
        dirs.deep_view()[i].len() == dirs@[i]@.len(),
        dirs.deep_view()[i][j] == dirs@[i]@[j]@,
{
    assert(dirs.deep_view()[i] == dirs@[i].deep_view());
    assert(dirs.deep_view()[i][j] == dirs@[i]@[j].deep_view());
    assert(dirs.deep_view()[i][j] =~= dirs@[i]@[j]@);
}

/// A cell that the table covers, seen through the table's view.
pub proof fn lemma_covered_cell(dirs: &Vec<Vec<Vec<Direction>>>, n1: int, n2: int, i: int, j: int)
    requires
        covers(dirs.deep_view(), n1, n2),
        0 <= i <= n1,
        0 <= j <= n2,
    ensures
        i < dirs@.len(),
        j < dirs@[i]@.len(),
        dirs.deep_view()[i][j] == dirs@[i]@[j]@,
        forall|t: Direction| has_tag(dirs.deep_view(), i, j, t) == dirs@[i]@[j]@.contains(t),
{
    assert(dirs.deep_view()[i] == dirs@[i].deep_view());
    lemma_cell_view(dirs, i, j);
}

/// Tells whether a cell holds the tag `t`.
pub fn cell_has(cell: &Vec<Direction>, t: Direction) -> (found: bool)
    ensures
        found == cell@.contains(t),
{
    let mut k: usize = 0;
    while k < cell.len()
        invariant
            k <= cell@.len(),
            forall|l: int| 0 <= l < k ==> cell@[l] != t,
        decreases cell@.len() - k,
    {
        if cell[k] == t {
            return true;
        }
        k = k + 1;
    }
    false
}

/// Tells whether the table has every cell `(r, c)` with `r <= n1` and
/// `c <= n2`.
pub fn table_covers(dirs: &Vec<Vec<Vec<Direction>>>, n1: usize, n2: usize) -> (ok: bool)
    ensures
        ok == covers(dirs.deep_view(), n1 as int, n2 as int),
{
    let ghost d = dirs.deep_view();
    if dirs.len() <= n1 {
        return false;
    }
    let mut r: usize = 0;
    while r <= n1
        invariant
            d == dirs.deep_view(),
            dirs@.len() > n1,
            n1 < usize::MAX,
            r <= n1 + 1,
            forall|k: int| 0 <= k < r ==> (#[trigger] d[k]).len() > n2,
        decreases n1 + 1 - r,
    {
        assert(d[r as int] == dirs@[r as int].deep_view());
        if dirs[r].len() <= n2 {
            return false;
        }
        r = r + 1;
    }
    true
}

/// A walk in progress: the cell it has reached, and the columns gathered on
/// the way, from the last to the first.
struct Frame {
    i: usize,
    j: usize,
    a1: Vec<char>,
    a2: Vec<char>,
}

/// Every pair of `ps` followed by the columns `(t1, t2)`.
spec fn attach_all(ps: Seq<(Seq<char>, Seq<char>)>, t1: Seq<char>, t2: Seq<char>) -> Seq<
    (Seq<char>, Seq<char>),
> {
    Seq::new(ps.len(), |k: int| (ps[k].0 + t1, ps[k].1 + t2))
}

/// The alignments that the walk `f` leads to.
spec fn completions(s1: Seq<char>, s2: Seq<char>, d: Seq<Seq<Seq<Direction>>>, f: Frame) -> Seq<
    (Seq<char>, Seq<char>),
> {
    attach_all(alignments_from(s1, s2, d, f.i as int, f.j as int), f.a1@.reverse(), f.a2@.reverse())
}

/// The alignments that the walks on the stack lead to, the top of the stack
/// first.
spec fn pending(s1: Seq<char>, s2: Seq<char>, d: Seq<Seq<Seq<Direction>>>, stack: Seq<Frame>) -> Seq<
    (Seq<char>, Seq<char>),
>
    decreases stack.len(),
{
    if stack.len() == 0 {
        no_alignment()
    } else {
        completions(s1, s2, d, stack.last()) + pending(s1, s2, d, stack.drop_last())
    }
}

/// The number of cells that a walk from `(i, j)` visits, each counted once
/// for each way to reach it.
spec fn visits(d: Seq<Seq<Seq<Direction>>>, i: int, j: int) -> nat
    decreases i + j,
{
    if i <= 0 && j <= 0 {
        1
    } else {
        let diagonal = if has_tag(d, i, j, Direction::Diagonal) && i > 0 && j > 0 {
            visits(d, i - 1, j - 1)
        } else {
            0
        };
        let left = if has_tag(d, i, j, Direction::Left) && j > 0 {
            visits(d, i, j - 1)
        } else {
            0
        };
        let up = if has_tag(d, i, j, Direction::Up) && i > 0 {
            visits(d, i - 1, j)
        } else {
            0
        };
        1 + diagonal + left + up
    }
}

/// The number of cells that the walks on the stack have yet to visit.
spec fn work(d: Seq<Seq<Seq<Direction>>>, stack: Seq<Frame>) -> nat
    decreases stack.len(),
{
    if stack.len() == 0 {
        0
    } else {
        visits(d, stack.last().i as int, stack.last().j as int) + work(d, stack.drop_last())
    }
}

/// What one more walk on the stack adds to the alignments and to the cells
/// that are still to come.
proof fn lemma_push_frame(
    s1: Seq<char>,
    s2: Seq<char>,
    d: Seq<Seq<Seq<Direction>>>,
    stack: Seq<Frame>,
    f: Frame,
)
    ensures
        pending(s1, s2, d, stack.push(f)) == completions(s1, s2, d, f) + pending(s1, s2, d, stack),
        work(d, stack.push(f)) == visits(d, f.i as int, f.j as int) + work(d, stack),
{
    assert(stack.push(f).drop_last() =~= stack);
    assert(stack.push(f).last() == f);
}

/// A walk with one more column gathered leads to the alignments that the
/// walk before it leads to through that column.
proof fn lemma_child(
    ps: Seq<(Seq<char>, Seq<char>)>,
    x: char,
    y: char,
    a1: Seq<char>,
    a2: Seq<char>,
)
    ensures
        attach_all(ps, a1.push(x).reverse(), a2.push(y).reverse()) == attach_all(
            extend_all(ps, x, y),
            a1.reverse(),
            a2.reverse(),
        ),
{
    assert(a1.push(x).reverse() =~= seq![x] + a1.reverse());
    assert(a2.push(y).reverse() =~= seq![y] + a2.reverse());
    let l = attach_all(ps, a1.push(x).reverse(), a2.push(y).reverse());
    let r = attach_all(extend_all(ps, x, y), a1.reverse(), a2.reverse());
    assert forall|k: int| 0 <= k < ps.len() implies l[k] == r[k] by {
        assert(ps[k].0 + (seq![x] + a1.reverse()) =~= ps[k].0.push(x) + a1.reverse());
        assert(ps[k].1 + (seq![y] + a2.reverse()) =~= ps[k].1.push(y) + a2.reverse());
    }
    assert(l =~= r);
}

/// Columns are attached to two lists in a row list by list.
proof fn lemma_attach_concat(
    ps: Seq<(Seq<char>, Seq<char>)>,
    qs: Seq<(Seq<char>, Seq<char>)>,
    t1: Seq<char>,
    t2: Seq<char>,
)
    ensures
        attach_all(ps + qs, t1, t2) == attach_all(ps, t1, t2) + attach_all(qs, t1, t2),
{
    assert(attach_all(ps + qs, t1, t2) =~= attach_all(ps, t1, t2) + attach_all(qs, t1, t2));
}

/// Columns attached to the alignment without columns are an alignment of
/// their own, and attached to no alignment they are none.
proof fn lemma_attach_here(t1: Seq<char>, t2: Seq<char>)
    ensures
        attach_all(empty_alignment(), t1, t2) == seq![(t1, t2)],
        attach_all(no_alignment(), t1, t2) == no_alignment(),
{
    assert(Seq::<char>::empty() + t1 =~= t1);
    assert(Seq::<char>::empty() + t2 =~= t2);
    assert(attach_all(empty_alignment(), t1, t2) =~= seq![(t1, t2)]);
    assert(attach_all(no_alignment(), t1, t2) =~= no_alignment());
}

/// A copy of `v` with `c` appended.
fn with_symbol(v: &Vec<char>, c: char) -> (r: Vec<char>)
    ensures
        r@ == v@.push(c),
{
    let mut r = v.clone();
    assert(r@ =~= v@);
    r.push(c);
    r
}

/// The alignment that the walk `f` completes at its cell: its columns, if
/// the cell is the corner or has the tag `Start`.
spec fn stops(d: Seq<Seq<Seq<Direction>>>, f: Frame) -> Seq<(Seq<char>, Seq<char>)> {
    if (f.i == 0 && f.j == 0) || has_tag(d, f.i as int, f.j as int, Direction::Start) {
        seq![(f.a1@.reverse(), f.a2@.reverse())]
    } else {
        no_alignment()
    }
}

/// The alignments that the walk `f` leads to through the cells before its
/// own.
spec fn continuations(s1: Seq<char>, s2: Seq<char>, d: Seq<Seq<Seq<Direction>>>, f: Frame) -> Seq<
    (Seq<char>, Seq<char>),
> {
    let i = f.i as int;
    let j = f.j as int;
    let diagonal = if has_tag(d, i, j, Direction::Diagonal) && i > 0 && j > 0 {
        extend_all(alignments_from(s1, s2, d, i - 1, j - 1), s1[i - 1], s2[j - 1])
    } else {
        no_alignment()
    };
    let left = if has_tag(d, i, j, Direction::Left) && j > 0 {
        extend_all(alignments_from(s1, s2, d, i, j - 1), '-', s2[j - 1])
    } else {
        no_alignment()
    };
    let up = if has_tag(d, i, j, Direction::Up) && i > 0 {
        extend_all(alignments_from(s1, s2, d, i - 1, j), s1[i - 1], '-')
    } else {
        no_alignment()
    };
    attach_all(diagonal, f.a1@.reverse(), f.a2@.reverse()) + attach_all(
        left,
        f.a1@.reverse(),
        f.a2@.reverse(),
    ) + attach_all(up, f.a1@.reverse(), f.a2@.reverse())
}

/// The alignments that a walk leads to: the one that it completes at its
/// cell, then those through the cells before it.
#[verifier::rlimit(30)]
proof fn lemma_completions(s1: Seq<char>, s2: Seq<char>, d: Seq<Seq<Seq<Direction>>>, f: Frame)
    ensures
        completions(s1, s2, d, f) == stops(d, f) + if f.i == 0 && f.j == 0 {
            no_alignment()
        } else {
            continuations(s1, s2, d, f)
        },
{
    let i = f.i as int;
    let j = f.j as int;
    let r1 = f.a1@.reverse();
    let r2 = f.a2@.reverse();
    lemma_attach_here(r1, r2);
    if i == 0 && j == 0 {
        assert(stops(d, f) + no_alignment() =~= stops(d, f));
    } else {
        let here = if has_tag(d, i, j, Direction::Start) {
            empty_alignment()
        } else {
            no_alignment()
        };
        let diagonal = if has_tag(d, i, j, Direction::Diagonal) && i > 0 && j > 0 {
            extend_all(alignments_from(s1, s2, d, i - 1, j - 1), s1[i - 1], s2[j - 1])
        } else {
            no_alignment()
        };
        let left = if has_tag(d, i, j, Direction::Left) && j > 0 {
            extend_all(alignments_from(s1, s2, d, i, j - 1), '-', s2[j - 1])
        } else {
            no_alignment()
        };
        let up = if has_tag(d, i, j, Direction::Up) && i > 0 {
            extend_all(alignments_from(s1, s2, d, i - 1, j), s1[i - 1], '-')
        } else {
            no_alignment()
        };
        assert(alignments_from(s1, s2, d, i, j) == here + diagonal + left + up);
        lemma_attach_concat(here + diagonal + left, up, r1, r2);
        lemma_attach_concat(here + diagonal, left, r1, r2);
        lemma_attach_concat(here, diagonal, r1, r2);
        assert(attach_all(here, r1, r2) == stops(d, f));
        assert(completions(s1, s2, d, f) =~= stops(d, f) + continuations(s1, s2, d, f));
    }
}

/// Completes the walk `frame` at its cell: adds its columns, from the first
/// to the last, to the alignments found.
fn emit(frame: &Frame, aligned: &mut Vec<(String, String)>)
    ensures
        final(aligned).deep_view() == old(aligned).deep_view().push(
            (frame.a1@.reverse(), frame.a2@.reverse()),
        ),
        final(aligned)@.len() == old(aligned)@.len() + 1,
{
    let x = reversed_string(&frame.a1);
    let y = reversed_string(&frame.a2);
    aligned.push((x, y));
    assert(aligned.deep_view() =~= old(aligned).deep_view().push(
        (frame.a1@.reverse(), frame.a2@.reverse()),
    ));
}

/// Puts on the stack the walk that goes on from `frame` to cell `(i, j)`
/// with the column `(x, y)`.
fn push_child(
    Ghost(s1): Ghost<Seq<char>>,
    Ghost(s2): Ghost<Seq<char>>,
    Ghost(d): Ghost<Seq<Seq<Seq<Direction>>>>,
    frame: &Frame,
    i: usize,
    j: usize,
    x: char,
    y: char,
    stack: &mut Vec<Frame>,
)
    ensures
        final(stack)@.len() == old(stack)@.len() + 1,
        forall|k: int| 0 <= k < old(stack)@.len() ==> final(stack)@[k] == old(stack)@[k],
        final(stack)@[old(stack)@.len() as int].i == i,
        final(stack)@[old(stack)@.len() as int].j == j,
        pending(s1, s2, d, final(stack)@) == attach_all(
            extend_all(alignments_from(s1, s2, d, i as int, j as int), x, y),
            frame.a1@.reverse(),
            frame.a2@.reverse(),
        ) + pending(s1, s2, d, old(stack)@),
        work(d, final(stack)@) == visits(d, i as int, j as int) + work(d, old(stack)@),
{
    let child = Frame { i, j, a1: with_symbol(&frame.a1, x), a2: with_symbol(&frame.a2, y) };
    proof {
        lemma_push_frame(s1, s2, d, stack@, child);
        lemma_child(alignments_from(s1, s2, d, i as int, j as int), x, y, frame.a1@, frame.a2@);
    }
    stack.push(child);
}

/// Lists put before a list one after the other are their row put before it.
proof fn lemma_put_before<A>(a: Seq<A>, b: Seq<A>, c: Seq<A>, later: Seq<A>)
    ensures
        a + (b + (c + later)) == (a + b + c) + later,
        Seq::<A>::empty() + later == later,
{
    assert(a + (b + (c + later)) =~= (a + b + c) + later);
    assert(Seq::<A>::empty() + later =~= later);
}

/// Forks the walk `frame`: puts on the stack one walk for each tag of its
/// cell that leads to a cell of the table, `Up` first and `Diagonal` last.
#[verifier::rlimit(30)]
fn fork(
    a: &Vec<char>,
    b: &Vec<char>,
    dir_tab: &Vec<Vec<Vec<Direction>>>,
    frame: &Frame,
    stack: &mut Vec<Frame>,
)
    requires
        frame.i <= a@.len(),
        frame.j <= b@.len(),
        frame.i > 0 || frame.j > 0,
        covers(dir_tab.deep_view(), a@.len() as int, b@.len() as int),
        forall|k: int|
            0 <= k < old(stack)@.len() ==> (#[trigger] old(stack)@[k]).i <= a@.len()
                && old(stack)@[k].j <= b@.len(),
    ensures
        forall|k: int|
            0 <= k < final(stack)@.len() ==> (#[trigger] final(stack)@[k]).i <= a@.len()
                && final(stack)@[k].j <= b@.len(),
        pending(a@, b@, dir_tab.deep_view(), final(stack)@) == continuations(
            a@,
            b@,
            dir_tab.deep_view(),
            *frame,
        ) + pending(a@, b@, dir_tab.deep_view(), old(stack)@),
        work(dir_tab.deep_view(), final(stack)@) + 1 == work(dir_tab.deep_view(), old(stack)@)
            + visits(dir_tab.deep_view(), frame.i as int, frame.j as int),
{
    let ghost d = dir_tab.deep_view();
    let ghost later = pending(a@, b@, d, stack@);
    let ghost r1 = frame.a1@.reverse();
    let ghost r2 = frame.a2@.reverse();
    let i = frame.i;
    let j = frame.j;
    proof {
        lemma_covered_cell(dir_tab, a@.len() as int, b@.len() as int, i as int, j as int);
        lemma_attach_here(r1, r2);
    }
    let cell = &dir_tab[i][j];
    let go_up = i > 0 && cell_has(cell, Direction::Up);
    let go_left = j > 0 && cell_has(cell, Direction::Left);
    let go_diagonal = i > 0 && j > 0 && cell_has(cell, Direction::Diagonal);
    let ghost up = if go_up {
        attach_all(extend_all(alignments_from(a@, b@, d, i - 1, j as int), a@[i - 1], '-'), r1, r2)
    } else {
        no_alignment()
    };
    let ghost left = if go_left {
        attach_all(extend_all(alignments_from(a@, b@, d, i as int, j - 1), '-', b@[j - 1]), r1, r2)
    } else {
        no_alignment()
    };
    let ghost diagonal = if go_diagonal {
        attach_all(
            extend_all(alignments_from(a@, b@, d, i - 1, j - 1), a@[i - 1], b@[j - 1]),
            r1,
            r2,
        )
    } else {
        no_alignment()
    };
    assert(continuations(a@, b@, d, *frame) == diagonal + left + up);
    if go_up {
        push_child(Ghost(a@), Ghost(b@), Ghost(d), frame, i - 1, j, a[i - 1], '-', stack);
    }
    let ghost after_up = pending(a@, b@, d, stack@);
    assert(after_up == up + later) by {
        lemma_put_before(up, up, up, later);
    }
    if go_left {
        push_child(Ghost(a@), Ghost(b@), Ghost(d), frame, i, j - 1, '-', b[j - 1], stack);
    }
    let ghost after_left = pending(a@, b@, d, stack@);
    assert(after_left == left + after_up) by {
        lemma_put_before(up, up, up, after_up);
    }
    if go_diagonal {
        push_child(Ghost(a@), Ghost(b@), Ghost(d), frame, i - 1, j - 1, a[i - 1], b[j - 1], stack);
    }
    assert(pending(a@, b@, d, stack@) == diagonal + after_left) by {
        lemma_put_before(up, up, up, after_left);
    }
    proof {
        lemma_put_before(diagonal, left, up, later);
    }
}

/// Lists the alignments that end at the last cell of the direction table,
/// at most `*n` of them, and takes their number off `*n`.
///
/// The walk starts at the cell of the two whole sequences and follows the
/// tags backwards. Where a cell has several tags the walk forks, and the
/// alignments come out in the order in which `alignments_from` lists them;
/// the search stops as soon as `*n` alignments are found. The table may be
/// larger than the sequences call for; the call fails with
/// `InvalidDimensions` if the table lacks a cell that a walk could reach.
#[verifier::rlimit(30)]
pub fn get_aligned_sequence(
    s1: &str,
    s2: &str,
    dir_tab: &Vec<Vec<Vec<Direction>>>,
    n: &mut u32,
) -> (res: Result<Vec<(String, String)>, AlignError>)
    ensures
        match res {
            Ok(found) => {
                &&& covers(dir_tab.deep_view(), s1@.len() as int, s2@.len() as int)
                &&& found.deep_view() == first_n(
                    alignments_from(
                        s1@,
                        s2@,
                        dir_tab.deep_view(),
                        s1@.len() as int,
                        s2@.len() as int,
                    ),
                    *old(n) as int,
                )
                &&& rows_match(found.deep_view())
                &&& found@.len() <= *old(n)
                &&& *final(n) == *old(n) - found@.len()
            },
            Err(e) => {
                &&& e == AlignError::InvalidDimensions
                &&& !covers(dir_tab.deep_view(), s1@.len() as int, s2@.len() as int)
                &&& *final(n) == *old(n)
            },
        },
{
    let a = symbols_of(s1);
    let b = symbols_of(s2);
    let n1 = a.len();
    let n2 = b.len();
    if !table_covers(dir_tab, n1, n2) {
        return Err(AlignError::InvalidDimensions);
    }
    let ghost q1 = s1@;
    let ghost q2 = s2@;
    let ghost d = dir_tab.deep_view();
    let ghost total = alignments_from(q1, q2, d, n1 as int, n2 as int);
    let ghost cap = *n as int;

    let mut aligned: Vec<(String, String)> = Vec::new();
    let mut stack: Vec<Frame> = Vec::new();
    let root = Frame { i: n1, j: n2, a1: Vec::new(), a2: Vec::new() };
    proof {
        lemma_push_frame(q1, q2, d, stack@, root);
        assert(root.a1@.reverse() =~= Seq::<char>::empty());
        assert(root.a2@.reverse() =~= Seq::<char>::empty());
        assert forall|k: int| 0 <= k < total.len() implies (#[trigger] total[k]).0 + Seq::<
            char,
        >::empty() == total[k].0 && total[k].1 + Seq::<char>::empty() == total[k].1 by {
            assert(total[k].0 + Seq::<char>::empty() =~= total[k].0);
            assert(total[k].1 + Seq::<char>::empty() =~= total[k].1);
        }
        assert(completions(q1, q2, d, root) =~= total);
        assert(aligned.deep_view() =~= no_alignment());
        assert(aligned.deep_view() + (total + no_alignment()) =~= total);
    }
    stack.push(root);
    while stack.len() > 0 && *n > 0
        invariant
            a@ == q1,
            b@ == q2,
            n1 == q1.len(),
            n2 == q2.len(),
            d == dir_tab.deep_view(),
            covers(d, n1 as int, n2 as int),
            total == alignments_from(q1, q2, d, n1 as int, n2 as int),
            cap == *old(n),
            aligned@.len() + *n == cap,
            forall|k: int| 0 <= k < stack@.len() ==> (#[trigger] stack@[k]).i <= n1 && stack@[k].j <= n2,
            aligned.deep_view() + pending(q1, q2, d, stack@) == total || (*n == 0
                && aligned.deep_view() == first_n(total, cap)),
        decreases work(d, stack@),
    {
        let ghost before = stack@;
        let ghost done = aligned.deep_view();
        let frame = stack.pop().unwrap();
        let ghost later = pending(q1, q2, d, stack@);
        let ghost ends = stops(d, frame);
        let ghost goes = if frame.i == 0 && frame.j == 0 {
            no_alignment()
        } else {
            continuations(q1, q2, d, frame)
        };
        proof {
            assert(before.drop_last() =~= stack@);
            assert(before.last() == frame);
            lemma_completions(q1, q2, d, frame);
            assert(total == done + ((ends + goes) + later));
            assert(work(d, before) == visits(d, frame.i as int, frame.j as int) + work(d, stack@));
            lemma_covered_cell(dir_tab, n1 as int, n2 as int, frame.i as int, frame.j as int);
        }
        let at_corner = frame.i == 0 && frame.j == 0;
        if at_corner || cell_has(&dir_tab[frame.i][frame.j], Direction::Start) {
            emit(&frame, &mut aligned);
            *n = *n - 1;
        }
        assert(aligned.deep_view() =~= done + ends);
        if !at_corner && *n > 0 {
            fork(&a, &b, dir_tab, &frame, &mut stack);
            assert((done + ends) + (goes + later) =~= done + ((ends + goes) + later));
        } else if at_corner {
            assert((done + ends) + later =~= done + ((ends + goes) + later));
        } else {
            assert(first_n(total, cap) =~= done + ends);
        }
    }
    proof {
        if aligned.deep_view() + pending(q1, q2, d, stack@) == total {
            if stack@.len() == 0 {
                assert(aligned.deep_view() + no_alignment() =~= aligned.deep_view());
            } else {
                assert(first_n(total, cap) =~= aligned.deep_view());
            }
        }
        lemma_rows_match(q1, q2, d, n1 as int, n2 as int);
        lemma_rows_match_first_n(total, cap);
    }
    Ok(aligned)
}

/// The largest of the first `k` entries of a row, or the least `i32` if
/// `k` is 0.
pub open spec fn row_max(row: Seq<i32>, k: int) -> int
    decreases k,
{
    if k <= 0 {
        i32::MIN as int
    } else {
        larger(row_max(row, k - 1), row[k - 1] as int)
    }
}

/// The largest entry of the first `r` rows of a grid, or the least `i32` if
/// they hold no entry.
pub open spec fn grid_max(t: Seq<Seq<i32>>, r: int) -> int
    decreases r,
{
    if r <= 0 {
        i32::MIN as int
    } else {
        larger(grid_max(t, r - 1), row_max(t[r - 1], t[r - 1].len() as int))
    }
}

/// The places of the value `m` among the first `k` entries of row `r`, from
/// left to right.
pub open spec fn row_hits(row: Seq<i32>, r: int, m: int, k: int) -> Seq<(usize, usize)>
    decreases k,
{
    if k <= 0 {
        Seq::<(usize, usize)>::empty()
    } else if row[k - 1] == m {
        row_hits(row, r, m, k - 1).push((r as usize, (k - 1) as usize))
    } else {
        row_hits(row, r, m, k - 1)
    }
}

/// The places of the value `m` in the first `r` rows of a grid, row by row
/// and in each row from left to right.
pub open spec fn grid_hits(t: Seq<Seq<i32>>, m: int, r: int) -> Seq<(usize, usize)>
    decreases r,
{
    if r <= 0 {
        Seq::<(usize, usize)>::empty()
    } else {
        grid_hits(t, m, r - 1) + row_hits(t[r - 1], r - 1, m, t[r - 1].len() as int)
    }
}

/// The places of the largest entry of a grid, row by row and in each row from
/// left to right.
pub open spec fn max_cells(t: Seq<Seq<i32>>) -> Seq<(usize, usize)> {
    grid_hits(t, grid_max(t, t.len() as int), t.len() as int)
}

/// A value above the largest of the first `k` entries of a row has no place
/// among them.
proof fn lemma_no_row_hits(row: Seq<i32>, r: int, m: int, k: int)
    requires
        0 <= k <= row.len(),
        m > row_max(row, k),
    ensures
        row_hits(row, r, m, k) == Seq::<(usize, usize)>::empty(),
    decreases k,
{
    if k > 0 {
        lemma_no_row_hits(row, r, m, k - 1);
    }
}

/// A value above the largest entry of the first `r` rows of a grid has no
/// place in them.
proof fn lemma_no_grid_hits(t: Seq<Seq<i32>>, m: int, r: int)
    requires
        0 <= r <= t.len(),
        m > grid_max(t, r),
    ensures
        grid_hits(t, m, r) == Seq::<(usize, usize)>::empty(),
    decreases r,
{
    if r > 0 {
        lemma_no_grid_hits(t, m, r - 1);
        lemma_no_row_hits(t[r - 1], r - 1, m, t[r - 1].len() as int);
    }
}

/// Finds the places of the largest entry of a grid, row by row and in each
/// row from left to right.
pub fn find_max_indices(matrix: &Vec<Vec<i32>>) -> (max_indices: Vec<(usize, usize)>)
    ensures
        max_indices@ == max_cells(matrix.deep_view()),
{
    let ghost t = matrix.deep_view();
    let mut max_value: i32 = i32::MIN;
    let mut max_indices: Vec<(usize, usize)> = Vec::new();
    let mut i: usize = 0;
    while i < matrix.len()
        invariant
            t == matrix.deep_view(),
            i <= matrix@.len(),
            max_value == grid_max(t, i as int),
            max_indices@ == grid_hits(t, max_value as int, i as int),
        decreases matrix@.len() - i,
    {
        let row = &matrix[i];
        let ghost above = grid_hits(t, max_value as int, i as int);
        let ghost top = grid_max(t, i as int);
        proof {
            assert(t[i as int] == matrix@[i as int].deep_view());
            assert(t[i as int] =~= row@);
            assert(above + Seq::<(usize, usize)>::empty() =~= above);
        }
        let mut j: usize = 0;
        while j < row.len()
            invariant
                t == matrix.deep_view(),
                i < matrix@.len(),
                row@ == t[i as int],
                j <= row@.len(),
                top == grid_max(t, i as int),
                max_value == larger(top, row_max(row@, j as int)),
                max_indices@ == grid_hits(t, max_value as int, i as int) + row_hits(
                    row@,
                    i as int,
                    max_value as int,
                    j as int,
                ),
            decreases row@.len() - j,
        {
            let value = row[j];
            let ghost so_far = row_hits(row@, i as int, max_value as int, j as int);
            let ghost before = grid_hits(t, max_value as int, i as int);
            if value > max_value {
                proof {
                    lemma_no_grid_hits(t, value as int, i as int);
                    lemma_no_row_hits(row@, i as int, value as int, j as int);
                }
                max_value = value;
                max_indices.clear();
                max_indices.push((i, j));
                assert(max_indices@ =~= grid_hits(t, max_value as int, i as int) + row_hits(
                    row@,
                    i as int,
                    max_value as int,
                    j + 1,
                ));
            } else if value == max_value {
                max_indices.push((i, j));
                assert(max_indices@ =~= before + so_far.push((i, j)));
            }
            j = j + 1;
        }
        i = i + 1;
    }
    max_indices
}

/// The grid `t` has one row for each of `n1 + 1` prefixes and in each row one
/// column for each of `n2 + 1` prefixes.
pub open spec fn has_shape(t: Seq<Seq<i32>>, n1: int, n2: int) -> bool {
    &&& t.len() == n1 + 1
    &&& forall|r: int| 0 <= r <= n1 ==> (#[trigger] t[r]).len() == n2 + 1
}

/// Tells whether the score table has one row for each of `n1 + 1` prefixes
/// and in each row one column for each of `n2 + 1` prefixes.
pub fn table_has_shape(tab: &Vec<Vec<i32>>, n1: usize, n2: usize) -> (ok: bool)
    ensures
        ok == has_shape(tab.deep_view(), n1 as int, n2 as int),
{
    let ghost t = tab.deep_view();
    if tab.len() == 0 || tab.len() - 1 != n1 {
        return false;
    }
    let mut r: usize = 0;
    while r <= n1
        invariant
            t == tab.deep_view(),
            tab@.len() == n1 + 1,
            n1 < usize::MAX,
            r <= n1 + 1,
            forall|k: int| 0 <= k < r ==> (#[trigger] t[k]).len() == n2 + 1,
        decreases n1 + 1 - r,
    {
        assert(t[r as int] == tab@[r as int].deep_view());
        if tab[r].len() == 0 || tab[r].len() - 1 != n2 {
            return false;
        }
        r = r + 1;
    }
    true
}

/// The alignments that end at the cells `roots`, cell after cell.
pub open spec fn alignments_at(
    s1: Seq<char>,
    s2: Seq<char>,
    d: Seq<Seq<Seq<Direction>>>,
    roots: Seq<(usize, usize)>,
) -> Seq<(Seq<char>, Seq<char>)>
    decreases roots.len(),
{
    if roots.len() == 0 {
        no_alignment()
    } else {
        alignments_at(s1, s2, d, roots.drop_last()) + alignments_from(
            s1,
            s2,
            d,
            roots.last().0 as int,
            roots.last().1 as int,
        )
    }
}

/// The alignments that end at a cell depend on the symbols before the cell
/// alone.
pub proof fn lemma_alignments_of_prefixes(
    s1: Seq<char>,
    s2: Seq<char>,
    d: Seq<Seq<Seq<Direction>>>,
    n1: int,
    n2: int,
    i: int,
    j: int,
)
    requires
        0 <= i <= n1 <= s1.len(),
        0 <= j <= n2 <= s2.len(),
    ensures
        alignments_from(s1.take(n1), s2.take(n2), d, i, j) == alignments_from(s1, s2, d, i, j),
    decreases i + j,
{
    if i > 0 && j > 0 {
        lemma_alignments_of_prefixes(s1, s2, d, n1, n2, i - 1, j - 1);
    }
    if i > 0 {
        lemma_alignments_of_prefixes(s1, s2, d, n1, n2, i - 1, j);
    }
    if j > 0 {
        lemma_alignments_of_prefixes(s1, s2, d, n1, n2, i, j - 1);
    }
}

/// Taking the first `k` of two lists in a row is taking the first `k` of the
/// first list and then of the second as many as are still missing.
pub proof fn lemma_first_n_concat<A>(x: Seq<A>, y: Seq<A>, k: int)
    requires
        0 <= k,
    ensures
        first_n(x + y, k) == first_n(x, k) + first_n(y, k - first_n(x, k).len()),
{
    assert(first_n(x + y, k) =~= first_n(x, k) + first_n(y, k - first_n(x, k).len()));
}

/// A table that has every cell up to `(n1, n2)` has every cell up to any
/// cell before that one.
proof fn lemma_covers_less(d: Seq<Seq<Seq<Direction>>>, n1: int, n2: int, i: int, j: int)
    requires
        covers(d, n1, n2),
        0 <= i <= n1,
        0 <= j <= n2,
    ensures
        covers(d, i, j),
{
}

/// The alignments of two lists in a row, seen through the lists' views.
proof fn lemma_joined(
    before: Vec<(String, String)>,
    added: Vec<(String, String)>,
    after: Vec<(String, String)>,
)
    requires
        after@ == before@ + added@,
    ensures
        after.deep_view() == before.deep_view() + added.deep_view(),
{
    assert(after.deep_view() =~= before.deep_view() + added.deep_view());
}

/// The first `n` alignments of one more cell: those of the cells before it,
/// then of its own as many as are still missing.
proof fn lemma_next_root(
    s1: Seq<char>,
    s2: Seq<char>,
    d: Seq<Seq<Seq<Direction>>>,
    roots: Seq<(usize, usize)>,
    k: int,
    n: int,
    done: Seq<(Seq<char>, Seq<char>)>,
    found: Seq<(Seq<char>, Seq<char>)>,
)
    requires
        0 <= k < roots.len(),
        0 <= n,
        roots[k].0 <= s1.len(),
        roots[k].1 <= s2.len(),
        done == first_n(alignments_at(s1, s2, d, roots.take(k)), n),
        found == first_n(
            alignments_from(
                s1.subrange(0, roots[k].0 as int),
                s2.subrange(0, roots[k].1 as int),
                d,
                roots[k].0 as int,
                roots[k].1 as int,
            ),
            n - done.len(),
        ),
    ensures
        done + found == first_n(alignments_at(s1, s2, d, roots.take(k + 1)), n),
{
    let i = roots[k].0 as int;
    let j = roots[k].1 as int;
    lemma_alignments_of_prefixes(s1, s2, d, i, j, i, j);
    assert(s1.take(i) == s1.subrange(0, i));
    assert(s2.take(j) == s2.subrange(0, j));
    assert(roots.take(k + 1).drop_last() =~= roots.take(k));
    assert(roots.take(k + 1).last() == roots[k]);
    lemma_first_n_concat(
        alignments_at(s1, s2, d, roots.take(k)),
        alignments_from(s1, s2, d, i, j),
        n,
    );
}

/// Lists the optimal local alignments, at most `n` of them.
///
/// Every cell that holds the largest score of the table roots its own
/// alignments. The cells are taken row by row and in each row from left to
/// right, and the alignments of each cell come out as `get_aligned_sequence`
/// lists them for the two prefixes that end at the cell. The call fails with
/// `InvalidDimensions` unless the score table has one row for each prefix of
/// `s1` and one column for each prefix of `s2`, and the direction table has a
/// cell for each of them.
pub fn get_smith_waterman_sequence(
    s1: &str,
    s2: &str,
    tab: &Vec<Vec<i32>>,
    dir_tab: &Vec<Vec<Vec<Direction>>>,
    n: u32,
) -> (res: Result<Vec<(String, String)>, AlignError>)
    ensures
        match res {
            Ok(found) => {
                &&& has_shape(tab.deep_view(), s1@.len() as int, s2@.len() as int)
                &&& covers(dir_tab.deep_view(), s1@.len() as int, s2@.len() as int)
                &&& found.deep_view() == first_n(
                    alignments_at(s1@, s2@, dir_tab.deep_view(), max_cells(tab.deep_view())),
                    n as int,
                )
                &&& rows_match(found.deep_view())
                &&& found@.len() <= n
            },
            Err(e) => {
                &&& e == AlignError::InvalidDimensions
                &&& !(has_shape(tab.deep_view(), s1@.len() as int, s2@.len() as int) && covers(
                    dir_tab.deep_view(),
                    s1@.len() as int,
                    s2@.len() as int,
                ))
            },
        },
{
    let n1 = s1.unicode_len();
    let n2 = s2.unicode_len();
    if !table_has_shape(tab, n1, n2) || !table_covers(dir_tab, n1, n2) {
        return Err(AlignError::InvalidDimensions);
    }
    let ghost d = dir_tab.deep_view();
    let mut max: u32 = n;
    let mut all_aligned: Vec<(String, String)> = Vec::new();
    let indices = find_max_indices(tab);
    proof {
        let t = tab.deep_view();
        assert(tab.len() == t.len());
        assert forall|a: int| 0 <= a < t.len() implies (#[trigger] t[a]).len() <= usize::MAX by {
            assert(t[a] == tab@[a].deep_view());
            assert(tab@[a].len() == t[a].len());
        }
        lemma_max_cells(t);
        assert(indices@.take(0) =~= Seq::<(usize, usize)>::empty());
        assert(all_aligned.deep_view() =~= no_alignment());
    }
    let mut k: usize = 0;
    while k < indices.len()
        invariant
            d == dir_tab.deep_view(),
            n1 == s1@.len(),
            n2 == s2@.len(),
            covers(d, n1 as int, n2 as int),
            forall|x: int|
                0 <= x < indices@.len() ==> (#[trigger] indices@[x]).0 <= n1 && indices@[x].1 <= n2,
            k <= indices@.len(),
            all_aligned@.len() + max == n,
            all_aligned.deep_view() == first_n(
                alignments_at(s1@, s2@, d, indices@.take(k as int)),
                n as int,
            ),
        decreases indices@.len() - k,
    {
        let (i, j) = indices[k];
        let p1 = s1.substring_char(0, i);
        let p2 = s2.substring_char(0, j);
        proof {
            lemma_covers_less(d, n1 as int, n2 as int, i as int, j as int);
        }
        let ghost before = all_aligned;
        match get_aligned_sequence(p1, p2, dir_tab, &mut max) {
            Ok(mut aligned) => {
                let ghost added = aligned;
                all_aligned.append(&mut aligned);
                proof {
                    lemma_joined(before, added, all_aligned);
                    lemma_next_root(
                        s1@,
                        s2@,
                        d,
                        indices@,
                        k as int,
                        n as int,
                        before.deep_view(),
                        added.deep_view(),
                    );
                }
            },
            Err(e) => {
                return Err(e);
            },
        }
        k = k + 1;
    }
    proof {
        assert(indices@.take(k as int) =~= indices@);
        lemma_rows_match_at(s1@, s2@, d, indices@);
        lemma_rows_match_first_n(alignments_at(s1@, s2@, d, indices@), n as int);
    }
    Ok(all_aligned)
}

/// The optimal alignments of `s1` and `s2` that the tables `t` and `d`
/// describe: for a global alignment those that end at the last cell, for a
/// local alignment those that end at a cell with the largest score.
pub open spec fn optimal_alignments(
    s1: Seq<char>,
    s2: Seq<char>,
    t: Seq<Seq<i32>>,
    d: Seq<Seq<Seq<Direction>>>,
    mode: Algorithm,
) -> Seq<(Seq<char>, Seq<char>)> {
    match mode {
        Algorithm::NeedlemanWunsch => alignments_from(s1, s2, d, s1.len() as int, s2.len() as int),
        Algorithm::SmithWaterman => alignments_at(s1, s2, d, max_cells(t)),
    }
}

/// The two tables are tables of `s1` and `s2`: the score table has one row
/// for each prefix of `s1` and one column for each prefix of `s2`, and the
/// direction table has a cell for each of them.
pub open spec fn tables_match(
    s1: Seq<char>,
    s2: Seq<char>,
    t: Seq<Seq<i32>>,
    d: Seq<Seq<Seq<Direction>>>,
) -> bool {
    has_shape(t, s1.len() as int, s2.len() as int) && covers(d, s1.len() as int, s2.len() as int)
}

/// Lists the optimal alignments of `s1` and `s2`, at most `max_count` of
/// them, in the order of `optimal_alignments`.
///
/// The call fails with `InvalidCount` if `max_count` is negative, else with
/// `InvalidDimensions` if the tables are not tables of the two sequences.
pub fn reconstruct(
    s1: &str,
    s2: &str,
    tab: &Vec<Vec<i32>>,
    dir_tab: &Vec<Vec<Vec<Direction>>>,
    algorithm: &Algorithm,
    max_count: i64,
) -> (res: Result<Vec<(String, String)>, AlignError>)
    requires
        max_count <= u32::MAX,
    ensures
        match res {
            Ok(found) => {
                &&& max_count >= 0
                &&& tables_match(s1@, s2@, tab.deep_view(), dir_tab.deep_view())
                &&& found.deep_view() == first_n(
                    optimal_alignments(s1@, s2@, tab.deep_view(), dir_tab.deep_view(), *algorithm),
                    max_count as int,
                )
                &&& rows_match(found.deep_view())
                &&& found@.len() <= max_count
            },
            Err(e) => if max_count < 0 {
                e == AlignError::InvalidCount
            } else {
                e == AlignError::InvalidDimensions && !tables_match(
                    s1@,
                    s2@,
                    tab.deep_view(),
                    dir_tab.deep_view(),
                )
            },
        },
{
    if max_count < 0 {
        return Err(AlignError::InvalidCount);
    }
    let mut n: u32 = max_count as u32;
    match *algorithm {
        Algorithm::NeedlemanWunsch => {
            let n1 = s1.unicode_len();
            let n2 = s2.unicode_len();
            if !table_has_shape(tab, n1, n2) {
                return Err(AlignError::InvalidDimensions);
            }
            get_aligned_sequence(s1, s2, dir_tab, &mut n)
        },
        Algorithm::SmithWaterman => get_smith_waterman_sequence(s1, s2, tab, dir_tab, n),
    }
}

/// The score of the optimal alignments that the score table `t` of `s1` and
/// `s2` describes: for a global alignment the entry of the last cell, for a
/// local alignment the largest entry.
pub open spec fn final_score(s1: Seq<char>, s2: Seq<char>, t: Seq<Seq<i32>>, mode: Algorithm) -> int {
    match mode {
        Algorithm::NeedlemanWunsch => t[s1.len() as int][s2.len() as int] as int,
        Algorithm::SmithWaterman => grid_max(t, t.len() as int),
    }
}

/// Finds the largest entry of a grid.
pub fn get_largest_entry(matrix: &Vec<Vec<i32>>) -> (max_value: i32)
    ensures
        max_value == grid_max(matrix.deep_view(), matrix@.len() as int),
{
    let ghost t = matrix.deep_view();
    let mut max_value: i32 = i32::MIN;
    let mut i: usize = 0;
    while i < matrix.len()
        invariant
            t == matrix.deep_view(),
            i <= matrix@.len(),
            max_value == grid_max(t, i as int),
        decreases matrix@.len() - i,
    {
        let row = &matrix[i];
        let ghost top = grid_max(t, i as int);
        proof {
            assert(t[i as int] == matrix@[i as int].deep_view());
            assert(t[i as int] =~= row@);
        }
        let mut j: usize = 0;
        while j < row.len()
            invariant
                j <= row@.len(),
                max_value == larger(top, row_max(row@, j as int)),
            decreases row@.len() - j,
        {
            if row[j] > max_value {
                max_value = row[j];
            }
            j = j + 1;
        }
        i = i + 1;
    }
    max_value
}

/// Reads the score of the optimal alignments off the score table.
///
/// The call fails with `InvalidDimensions` unless the table has one row for
/// each prefix of `s1` and one column for each prefix of `s2`.
pub fn get_alignment_score(s1: &str, s2: &str, tab: &Vec<Vec<i32>>, algorithm: &Algorithm) -> (res:
    Result<i32, AlignError>)
    ensures
        match res {
            Ok(score) => has_shape(tab.deep_view(), s1@.len() as int, s2@.len() as int) && score
                == final_score(s1@, s2@, tab.deep_view(), *algorithm),
            Err(e) => e == AlignError::InvalidDimensions && !has_shape(
                tab.deep_view(),
                s1@.len() as int,
                s2@.len() as int,
            ),
        },
{
    let n1 = s1.unicode_len();
    let n2 = s2.unicode_len();
    if !table_has_shape(tab, n1, n2) {
        return Err(AlignError::InvalidDimensions);
    }
    match *algorithm {
        Algorithm::NeedlemanWunsch => {
            proof {
                let t = tab.deep_view();
                assert(t[n1 as int] == tab@[n1 as int].deep_view());
                assert(t[n1 as int][n2 as int] == tab@[n1 as int]@[n2 as int]);
            }
            Ok(tab[n1][n2])
        },
        Algorithm::SmithWaterman => Ok(get_largest_entry(tab)),
    }
}

} // verus!
