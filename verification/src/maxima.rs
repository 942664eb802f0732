//! Laws of the search for the largest entries of a grid.

use crate::reconstruction::{grid_hits, grid_max, max_cells, row_hits, row_max};
use vstd::prelude::*;

verus! {

/// `(a, b)` is a place of the grid `t`.
pub open spec fn in_grid(t: Seq<Seq<i32>>, a: int, b: int) -> bool {
    0 <= a < t.len() && 0 <= b < t[a].len()
}

/// The grid has no more rows, and no row has more entries, than a `usize`
/// counts.
pub open spec fn is_countable(t: Seq<Seq<i32>>) -> bool {
    &&& t.len() <= usize::MAX
    &&& forall|a: int| 0 <= a < t.len() ==> (#[trigger] t[a]).len() <= usize::MAX
}

/// No entry among the first `k` of a row exceeds their largest, and one of
/// them is the largest if there is any.
pub proof fn lemma_row_max(row: Seq<i32>, k: int)
    requires
        0 <= k <= row.len(),
    ensures
        i32::MIN <= row_max(row, k) <= i32::MAX,
        forall|c: int| 0 <= c < k ==> #[trigger] row[c] <= row_max(row, k),
        k > 0 ==> exists|c: int| 0 <= c < k && #[trigger] row[c] == row_max(row, k),
    decreases k,
{
    if k > 0 {
        lemma_row_max(row, k - 1);
        if k == 1 || row[k - 1] >= row_max(row, k - 1) {
            assert(row[k - 1] == row_max(row, k));
        } else {
            let c = choose|c: int| 0 <= c < k - 1 && #[trigger] row[c] == row_max(row, k - 1);
            assert(row[c] == row_max(row, k));
        }
    }
}

/// The largest entry of the first `r` rows of a grid is one of their
/// entries, unless it is the least `i32`.
proof fn lemma_grid_max_is_entry(t: Seq<Seq<i32>>, r: int)
    requires
        0 <= r <= t.len(),
    ensures
        grid_max(t, r) == i32::MIN || exists|a: int, b: int|
            0 <= a < r && 0 <= b < t[a].len() && #[trigger] t[a][b] == grid_max(t, r),
    decreases r,
{
    if r > 0 {
        lemma_grid_max_is_entry(t, r - 1);
        let last = t[r - 1];
        lemma_row_max(last, last.len() as int);
        let top = grid_max(t, r);
        if top != i32::MIN {
            if last.len() > 0 && row_max(last, last.len() as int) == top {
                let c = choose|c: int|
                    0 <= c < last.len() && #[trigger] last[c] == row_max(last, last.len() as int);
                assert(t[r - 1][c] == top);
            } else {
                let (a, b) = choose|a: int, b: int|
                    0 <= a < r - 1 && 0 <= b < t[a].len() && #[trigger] t[a][b] == grid_max(
                        t,
                        r - 1,
                    );
                assert(t[a][b] == top);
            }
        }
    }
}

/// No entry of the first `r` rows of a grid exceeds their largest, and one
/// of them is the largest if there is any.
pub proof fn lemma_grid_max(t: Seq<Seq<i32>>, r: int)
    requires
        0 <= r <= t.len(),
    ensures
        i32::MIN <= grid_max(t, r) <= i32::MAX,
        forall|a: int, b: int|
            0 <= a < r && 0 <= b < t[a].len() ==> #[trigger] t[a][b] <= grid_max(t, r),
        (exists|a: int| 0 <= a < r && (#[trigger] t[a]).len() > 0) ==> exists|a: int, b: int|
            0 <= a < r && 0 <= b < t[a].len() && #[trigger] t[a][b] == grid_max(t, r),
    decreases r,
{
    if r > 0 {
        lemma_grid_max(t, r - 1);
        lemma_row_max(t[r - 1], t[r - 1].len() as int);
    }
    lemma_grid_max_is_entry(t, r);
    if grid_max(t, r) == i32::MIN && exists|a: int| 0 <= a < r && (#[trigger] t[a]).len() > 0 {
        let a = choose|a: int| 0 <= a < r && (#[trigger] t[a]).len() > 0;
        assert(t[a][0] <= grid_max(t, r));
        assert(t[a][0] == grid_max(t, r));
    }
}

/// The places that `row_hits` lists are the places of the value `m` among
/// the first `k` entries of the row.
pub proof fn lemma_row_hits(row: Seq<i32>, r: int, m: int, k: int)
    requires
        0 <= k <= row.len() <= usize::MAX,
        0 <= r <= usize::MAX,
    ensures
        forall|x: int|
            0 <= x < row_hits(row, r, m, k).len() ==> (#[trigger] row_hits(row, r, m, k)[x]).0 == r
                && row_hits(row, r, m, k)[x].1 < k && row[row_hits(row, r, m, k)[x].1 as int] == m,
        forall|c: int|
            0 <= c < k && #[trigger] row[c] == m ==> row_hits(row, r, m, k).contains(
                (r as usize, c as usize),
            ),
    decreases k,
{
    if k > 0 {
        lemma_row_hits(row, r, m, k - 1);
        let now = row_hits(row, r, m, k);
        let was = row_hits(row, r, m, k - 1);
        assert forall|x: int| 0 <= x < now.len() implies (#[trigger] now[x]).0 == r && now[x].1 < k
            && row[now[x].1 as int] == m by {
            if x < was.len() {
                assert(now[x] == was[x]);
            }
        }
        assert forall|c: int| 0 <= c < k && #[trigger] row[c] == m implies now.contains(
            (r as usize, c as usize),
        ) by {
            if c < k - 1 {
                let x = choose|x: int|
                    0 <= x < was.len() && #[trigger] was[x] == (r as usize, c as usize);
                assert(now[x] == was[x]);
            } else {
                assert(now[now.len() - 1] == (r as usize, c as usize));
            }
        }
    }
}

/// The places that `grid_hits` lists are the places of the value `m` in the
/// first `r` rows of the grid.
pub proof fn lemma_grid_hits(t: Seq<Seq<i32>>, m: int, r: int)
    requires
        0 <= r <= t.len(),
        is_countable(t),
    ensures
        forall|x: int|
            0 <= x < grid_hits(t, m, r).len() ==> (#[trigger] grid_hits(t, m, r)[x]).0 < r && in_grid(
                t,
                grid_hits(t, m, r)[x].0 as int,
                grid_hits(t, m, r)[x].1 as int,
            ) && t[grid_hits(t, m, r)[x].0 as int][grid_hits(t, m, r)[x].1 as int] == m,
        forall|a: int, b: int|
            0 <= a < r && 0 <= b < t[a].len() && #[trigger] t[a][b] == m ==> grid_hits(
                t,
                m,
                r,
            ).contains((a as usize, b as usize)),
    decreases r,
{
    if r > 0 {
        lemma_grid_hits(t, m, r - 1);
        lemma_row_hits(t[r - 1], r - 1, m, t[r - 1].len() as int);
        let now = grid_hits(t, m, r);
        let was = grid_hits(t, m, r - 1);
        let last = row_hits(t[r - 1], r - 1, m, t[r - 1].len() as int);
        assert forall|x: int| 0 <= x < now.len() implies (#[trigger] now[x]).0 < r && in_grid(
            t,
            now[x].0 as int,
            now[x].1 as int,
        ) && t[now[x].0 as int][now[x].1 as int] == m by {
            if x < was.len() {
                assert(now[x] == was[x]);
            } else {
                assert(now[x] == last[x - was.len()]);
            }
        }
        assert forall|a: int, b: int|
            0 <= a < r && 0 <= b < t[a].len() && #[trigger] t[a][b] == m implies now.contains(
            (a as usize, b as usize),
        ) by {
            if a < r - 1 {
                let x = choose|x: int|
                    0 <= x < was.len() && #[trigger] was[x] == (a as usize, b as usize);
                assert(now[x] == was[x]);
            } else {
                assert(t[r - 1][b] == m);
                let x = choose|x: int|
                    0 <= x < last.len() && #[trigger] last[x] == (a as usize, b as usize);
                assert(now[was.len() + x] == last[x]);
            }
        }
    }
}

/// A place is among those that `max_cells` lists if and only if it is a
/// place of the grid that holds the largest entry; no entry of the grid
/// exceeds that one, and a grid with an entry has such a place.
pub proof fn lemma_max_cells(t: Seq<Seq<i32>>)
    requires
        is_countable(t),
    ensures
        forall|x: int|
            0 <= x < max_cells(t).len() ==> in_grid(
                t,
                (#[trigger] max_cells(t)[x]).0 as int,
                max_cells(t)[x].1 as int,
            ) && t[max_cells(t)[x].0 as int][max_cells(t)[x].1 as int] == grid_max(
                t,
                t.len() as int,
            ),
        forall|a: int, b: int|
            in_grid(t, a, b) && #[trigger] t[a][b] == grid_max(t, t.len() as int)
                ==> max_cells(t).contains((a as usize, b as usize)),
        forall|a: int, b: int| in_grid(t, a, b) ==> #[trigger] t[a][b] <= grid_max(t, t.len() as int),
        (exists|a: int, b: int| in_grid(t, a, b)) ==> max_cells(t).len() > 0,
{
    let top = grid_max(t, t.len() as int);
    lemma_grid_hits(t, top, t.len() as int);
    lemma_grid_max(t, t.len() as int);
    if exists|a: int, b: int| in_grid(t, a, b) {
        let (a, b) = choose|a: int, b: int| in_grid(t, a, b);
        assert(t[a].len() > 0);
        let (x, y) = choose|x: int, y: int|
            0 <= x < t.len() && 0 <= y < t[x].len() && #[trigger] t[x][y] == top;
        assert(max_cells(t).contains((x as usize, y as usize)));
    }
}

} // verus!
