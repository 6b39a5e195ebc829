use vstd::prelude::*;
use crate::cell::{Cell, VisibleCell};
use crate::position::{adjacent, offset_x, offset_y};

verus! {

/// `p` lies on a grid of `w` columns and `h` rows.
pub open spec fn in_grid(w: int, h: int, p: (int, int)) -> bool {
    0 <= p.0 < w && 0 <= p.1 < h
}

/// Row-major index of `p` on a grid of `w` columns.
pub open spec fn grid_index(w: int, p: (int, int)) -> int {
    p.1 * w + p.0
}

/// Number of items of `s` that satisfy `f`.
pub open spec fn count_matching<T>(s: Seq<T>, f: spec_fn(T) -> bool) -> nat
    decreases s.len(),
{
    if s.len() == 0 {
        0
    } else {
        count_matching(s.drop_last(), f) + if f(s.last()) {
            1nat
        } else {
            0nat
        }
    }
}

pub open spec fn is_mine_cell(c: Cell) -> bool {
    c == Cell::Mine
}

pub open spec fn is_flagged(v: VisibleCell) -> bool {
    v == VisibleCell::Flagged
}

pub open spec fn is_hidden(v: VisibleCell) -> bool {
    !(v is Uncovered)
}

/// There is a mine at `p`, and `p` is on the grid.
pub open spec fn mine_at(w: int, h: int, cells: Seq<Cell>, p: (int, int)) -> bool {
    in_grid(w, h, p) && cells[grid_index(w, p)] == Cell::Mine
}

/// Mines among the first `k` neighbours of `p`, in offset order.
pub open spec fn mines_around_upto(w: int, h: int, cells: Seq<Cell>, p: (int, int), k: int) -> nat
    decreases k,
{
    if k <= 0 {
        0
    } else {
        mines_around_upto(w, h, cells, p, k - 1) + if mine_at(
            w,
            h,
            cells,
            (p.0 + offset_x(k - 1), p.1 + offset_y(k - 1)),
        ) {
            1nat
        } else {
            0nat
        }
    }
}

/// Mines among all eight neighbours of `p`.
pub open spec fn mines_around(w: int, h: int, cells: Seq<Cell>, p: (int, int)) -> nat {
    mines_around_upto(w, h, cells, p, 8)
}

/// The cell that a non-mine coordinate with `n` neighbouring mines holds.
pub open spec fn clue_for(n: nat) -> Cell {
    if n == 0 {
        Cell::Empty
    } else {
        Cell::Clue(n as u8)
    }
}

/// Every non-mine cell holds the count of its neighbouring mines.
pub open spec fn clues_hold(w: int, h: int, cells: Seq<Cell>) -> bool {
    forall|p: (int, int)|
        in_grid(w, h, p) && #[trigger] cells[grid_index(w, p)] != Cell::Mine
            ==> cells[grid_index(w, p)] == clue_for(mines_around(w, h, cells, p))
}

/// Every coordinate that is not a mine has been uncovered.
pub open spec fn all_safe_uncovered(cells: Seq<Cell>, vis: Seq<VisibleCell>) -> bool {
    forall|i: int|
        0 <= i < cells.len() && #[trigger] cells[i] != Cell::Mine ==> vis[i] is Uncovered
}

/// `p` is `s` or one of its neighbours: a coordinate that the first reveal
/// at `s` keeps free of mines.
pub open spec fn in_safe_zone(s: (int, int), p: (int, int)) -> bool {
    -1 <= p.0 - s.0 <= 1 && -1 <= p.1 - s.1 <= 1
}

/// A flood-fill path on the grid before a reveal: it starts anywhere, every
/// step goes to a neighbour, every coordinate on it holds `Empty`, and every
/// coordinate after the first was covered.
pub open spec fn is_fill_path(
    w: int,
    h: int,
    cells: Seq<Cell>,
    vis: Seq<VisibleCell>,
    path: Seq<(int, int)>,
) -> bool {
    &&& path.len() > 0
    &&& forall|i: int|
        0 <= i < path.len() ==> in_grid(w, h, #[trigger] path[i]) && cells[grid_index(w, path[i])]
            == Cell::Empty
    &&& forall|i: int|
        0 < i < path.len() ==> vis[grid_index(w, #[trigger] path[i])] == VisibleCell::Covered
    &&& forall|i: int| 0 <= i < path.len() - 1 ==> adjacent(#[trigger] path[i], path[i + 1])
}

/// Revealing `s` expands `e`: the flood fill started at `s` reaches `e` and
/// goes on to uncover its neighbours.
pub open spec fn expands(
    w: int,
    h: int,
    cells: Seq<Cell>,
    vis: Seq<VisibleCell>,
    s: (int, int),
    e: (int, int),
) -> bool {
    exists|path: Seq<(int, int)>|
        is_fill_path(w, h, cells, vis, path) && path[0] == s && path.last() == e
}

/// Revealing `s` uncovers `q`: `q` is `s`, or a neighbour of a coordinate
/// that the flood fill expands.
pub open spec fn revealed_by(
    w: int,
    h: int,
    cells: Seq<Cell>,
    vis: Seq<VisibleCell>,
    s: (int, int),
    q: (int, int),
) -> bool {
    q == s || (in_grid(w, h, q) && exists|e: (int, int)|
        #[trigger] expands(w, h, cells, vis, s, e) && adjacent(e, q))
}

/// Every item of `chain` lies in `set`, when the first does and each item
/// in `set` is followed by one in `set`.
proof fn lemma_chain_in_set<A>(chain: Seq<A>, set: Set<A>)
    requires
        chain.len() > 0,
        set.contains(chain[0]),
        forall|i: int|
            0 <= i < chain.len() - 1 && #[trigger] set.contains(chain[i]) ==> set.contains(
                chain[i + 1],
            ),
    ensures
        forall|i: int| 0 <= i < chain.len() ==> set.contains(#[trigger] chain[i]),
    decreases chain.len(),
{
    if chain.len() > 1 {
        let prefix = chain.drop_last();
        assert forall|i: int|
            0 <= i < prefix.len() - 1 && #[trigger] set.contains(prefix[i]) implies set.contains(
            prefix[i + 1],
        ) by {
            assert(set.contains(chain[i]));
        }
        lemma_chain_in_set(prefix, set);
        let n = chain.len() - 1;
        assert(prefix[n - 1] == chain[n - 1]);
        assert(set.contains(prefix[n - 1]));
        assert(set.contains(chain[n - 1]));
        assert(set.contains(chain[n]));
        assert forall|i: int| 0 <= i < chain.len() implies set.contains(#[trigger] chain[i]) by {
            if i < n {
                assert(chain[i] == prefix[i]);
            }
        }
    }
}

/// Every coordinate on a fill path lies in `exp`, when the path starts in
/// `exp` and `exp` is closed under the fill's step: each neighbour of a
/// member is in `unc`, and each member of `unc` that holds `Empty` and was
/// covered is in `exp`.
pub proof fn lemma_path_closed(
    w: int,
    h: int,
    cells: Seq<Cell>,
    vis: Seq<VisibleCell>,
    path: Seq<(int, int)>,
    exp: Set<(int, int)>,
    unc: Set<(int, int)>,
)
    requires
        is_fill_path(w, h, cells, vis, path),
        exp.contains(path[0]),
        forall|e: (int, int), q: (int, int)|
            #[trigger] exp.contains(e) && in_grid(w, h, q) && #[trigger] adjacent(e, q)
                ==> unc.contains(q),
        forall|q: (int, int)|
            #[trigger] unc.contains(q) && in_grid(w, h, q) && cells[grid_index(w, q)] == Cell::Empty
                && vis[grid_index(w, q)] == VisibleCell::Covered ==> exp.contains(q),
    ensures
        forall|i: int| 0 <= i < path.len() ==> exp.contains(#[trigger] path[i]),
{
    assert forall|i: int|
        0 <= i < path.len() - 1 && #[trigger] exp.contains(path[i]) implies exp.contains(
        path[i + 1],
    ) by {
        assert(adjacent(path[i], path[i + 1]));
        assert(in_grid(w, h, path[i + 1]));
        assert(unc.contains(path[i + 1]));
    }
    lemma_chain_in_set(path, exp);
}

/// Two grids with mines at the same places have the same mine counts.
pub proof fn lemma_same_mines(w: int, h: int, c1: Seq<Cell>, c2: Seq<Cell>, p: (int, int), k: int)
    requires
        c1.len() == c2.len(),
        forall|i: int| 0 <= i < c1.len() ==> (#[trigger] c1[i] == Cell::Mine) == (c2[i] == Cell::Mine),
        forall|q: (int, int)| in_grid(w, h, q) ==> 0 <= #[trigger] grid_index(w, q) < c1.len(),
    ensures
        mines_around_upto(w, h, c1, p, k) == mines_around_upto(w, h, c2, p, k),
    decreases k,
{
    if k > 0 {
        lemma_same_mines(w, h, c1, c2, p, k - 1);
        let q = (p.0 + offset_x(k - 1), p.1 + offset_y(k - 1));
        if in_grid(w, h, q) {
            assert(0 <= grid_index(w, q) < c1.len());
        }
    }
}

/// Without mines among the first `k` neighbours, none of them is a mine.
pub proof fn lemma_no_mines_around(w: int, h: int, cells: Seq<Cell>, p: (int, int), k: int)
    requires
        mines_around_upto(w, h, cells, p, k) == 0,
    ensures
        forall|j: int|
            0 <= j < k ==> !mine_at(w, h, cells, (p.0 + #[trigger] offset_x(j), p.1 + offset_y(j))),
    decreases k,
{
    if k > 0 {
        lemma_no_mines_around(w, h, cells, p, k - 1);
    }
}

/// The region a reveal at `s` uncovers is the least one: it lies inside
/// every set that holds `s` and every neighbour of each of its `Empty`
/// coordinates.
pub proof fn lemma_revealed_region_least(
    w: int,
    h: int,
    cells: Seq<Cell>,
    vis: Seq<VisibleCell>,
    s: (int, int),
    region: Set<(int, int)>,
    q: (int, int),
)
    requires
        region.contains(s),
        forall|c: (int, int), p: (int, int)|
            #[trigger] region.contains(c) && in_grid(w, h, c) && cells[grid_index(w, c)]
                == Cell::Empty && in_grid(w, h, p) && #[trigger] adjacent(c, p) ==> region.contains(p),
        revealed_by(w, h, cells, vis, s, q),
    ensures
        region.contains(q),
{
    if q != s {
        let e = choose|e: (int, int)| #[trigger] expands(w, h, cells, vis, s, e) && adjacent(e, q);
        let path = choose|path: Seq<(int, int)>|
            is_fill_path(w, h, cells, vis, path) && path[0] == s && path.last() == e;
        assert forall|i: int|
            0 <= i < path.len() - 1 && #[trigger] region.contains(path[i]) implies region.contains(
            path[i + 1],
        ) by {
            assert(adjacent(path[i], path[i + 1]));
            assert(in_grid(w, h, path[i]));
            assert(in_grid(w, h, path[i + 1]));
        }
        lemma_chain_in_set(path, region);
        assert(region.contains(path[path.len() - 1]));
        assert(in_grid(w, h, path[path.len() - 1]));
    }
}

/// The region a reveal at `s` uncovers is closed: each neighbour of an
/// uncovered `Empty` coordinate that is `s` or was covered is uncovered too.
pub proof fn lemma_revealed_region_closed(
    w: int,
    h: int,
    cells: Seq<Cell>,
    vis: Seq<VisibleCell>,
    s: (int, int),
    c: (int, int),
    q: (int, int),
)
    requires
        in_grid(w, h, s),
        revealed_by(w, h, cells, vis, s, c),
        in_grid(w, h, c),
        cells[grid_index(w, c)] == Cell::Empty,
        c == s || vis[grid_index(w, c)] == VisibleCell::Covered,
        in_grid(w, h, q),
        adjacent(c, q),
    ensures
        revealed_by(w, h, cells, vis, s, q),
{
    if c == s {
        let path = seq![s];
        assert(is_fill_path(w, h, cells, vis, path) && path[0] == s && path.last() == c);
        assert(expands(w, h, cells, vis, s, c));
    } else {
        let e = choose|e: (int, int)| #[trigger] expands(w, h, cells, vis, s, e) && adjacent(e, c);
        let path = choose|path: Seq<(int, int)>|
            is_fill_path(w, h, cells, vis, path) && path[0] == s && path.last() == e;
        let longer = path.push(c);
        assert(is_fill_path(w, h, cells, vis, longer)) by {
            assert forall|i: int| 0 <= i < longer.len() - 1 implies adjacent(
                #[trigger] longer[i],
                longer[i + 1],
            ) by {
                if i < longer.len() - 2 {
                    assert(adjacent(path[i], path[i + 1]));
                }
            }
            assert forall|i: int| 0 < i < longer.len() implies vis[grid_index(
                w,
                #[trigger] longer[i],
            )] == VisibleCell::Covered by {
                if i < longer.len() - 1 {
                    assert(longer[i] == path[i]);
                }
            }
            assert forall|i: int| 0 <= i < longer.len() implies in_grid(w, h, #[trigger] longer[i])
                && cells[grid_index(w, longer[i])] == Cell::Empty by {
                if i < longer.len() - 1 {
                    assert(longer[i] == path[i]);
                }
            }
        }
        assert(is_fill_path(w, h, cells, vis, longer) && longer[0] == s && longer.last() == c);
        assert(expands(w, h, cells, vis, s, c));
    }
}

pub proof fn lemma_index_bounds(w: int, h: int, p: (int, int))
    requires
        in_grid(w, h, p),
    ensures
        0 <= grid_index(w, p) < h * w,
{
    assert(0 <= p.1 * w + p.0 < h * w) by (nonlinear_arith)
        requires
            0 <= p.0 < w,
            0 <= p.1 < h,
    ;
}

pub proof fn lemma_area(w: int, h: int)
    requires
        0 <= w <= 255,
        0 <= h <= 255,
    ensures
        0 <= h * w <= 65025,
{
    assert(0 <= h * w <= 65025) by (nonlinear_arith)
        requires
            0 <= w <= 255,
            0 <= h <= 255,
    ;
}

pub proof fn lemma_index_injective(w: int, h: int, p: (int, int), q: (int, int))
    requires
        in_grid(w, h, p),
        in_grid(w, h, q),
        grid_index(w, p) == grid_index(w, q),
    ensures
        p == q,
{
    if p.1 < q.1 {
        assert(p.1 * w + p.0 < q.1 * w + q.0) by (nonlinear_arith)
            requires
                0 <= p.0 < w,
                0 <= q.0,
                p.1 < q.1,
        ;
    } else if q.1 < p.1 {
        assert(q.1 * w + q.0 < p.1 * w + p.0) by (nonlinear_arith)
            requires
                0 <= q.0 < w,
                0 <= p.0,
                q.1 < p.1,
        ;
    }
}

pub proof fn lemma_count_update<T>(s: Seq<T>, f: spec_fn(T) -> bool, i: int, v: T)
    requires
        0 <= i < s.len(),
    ensures
        count_matching(s.update(i, v), f) + (if f(s[i]) {
            1int
        } else {
            0int
        }) == count_matching(s, f) + (if f(v) {
            1int
        } else {
            0int
        }),
    decreases s.len(),
{
    let t = s.update(i, v);
    if i == s.len() - 1 {
        assert(t.drop_last() =~= s.drop_last());
    } else {
        assert(t.drop_last() =~= s.drop_last().update(i, v));
        lemma_count_update(s.drop_last(), f, i, v);
    }
}

pub proof fn lemma_count_same<T>(s1: Seq<T>, s2: Seq<T>, f: spec_fn(T) -> bool)
    requires
        s1.len() == s2.len(),
        forall|i: int| 0 <= i < s1.len() ==> f(#[trigger] s1[i]) == f(s2[i]),
    ensures
        count_matching(s1, f) == count_matching(s2, f),
    decreases s1.len(),
{
    if s1.len() > 0 {
        lemma_count_same(s1.drop_last(), s2.drop_last(), f);
        assert(f(s1[s1.len() - 1]) == f(s2[s2.len() - 1]));
    }
}

pub proof fn lemma_all_index_bounds(w: int, h: int)
    ensures
        forall|q: (int, int)| in_grid(w, h, q) ==> 0 <= #[trigger] grid_index(w, q) < h * w,
{
    assert forall|q: (int, int)| in_grid(w, h, q) implies 0 <= #[trigger] grid_index(w, q) < h * w by {
        lemma_index_bounds(w, h, q);
    }
}

} // verus!
