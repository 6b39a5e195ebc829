use vstd::prelude::*;
use crate::cell::{Cell, VisibleCell};
use crate::grid::{
    all_safe_uncovered, clue_for, in_safe_zone, is_mine_cell, is_fill_path, is_hidden, lemma_index_injective, lemma_path_closed, revealed_by, expands, clues_hold, mines_around, count_matching, grid_index, in_grid, is_flagged,
    lemma_all_index_bounds, lemma_area, lemma_count_same, lemma_count_update, lemma_same_mines, lemma_no_mines_around, lemma_index_bounds, mine_at, mines_around_upto,
};
use crate::position::{holds_coordinate, lemma_offsets_distinct, adjacent, adjacent_offset, lemma_offsets_cover_neighbours, offset_x, offset_y};
use crate::memento::{BoardMemento, Originator};
use crate::position::Position;
use crate::random::{entropy_rng, gen_below, seeded_rng};
use crate::state::{FinishedState, State};

verus! {

/// A Minesweeper board: the ground truth of every coordinate, what the
/// player sees of it, the flag budget and the game state. Both grids are
/// stored row-major, `height` rows of `width` cells.
#[derive(Clone)]
pub struct Board {
    /// Seed for the mine layout; without one the layout is drawn from
    /// operating-system entropy.
    pub seed: Option<u64>,
    state: State,
    height: u8,
    width: u8,
    initial_mines: u8,
    mines: u8,
    visible_cells: Vec<VisibleCell>,
    cells: Vec<Cell>,
}

/// Copies a vector of plain values element by element.
pub(crate) fn copy_vec<T: Copy>(v: &Vec<T>) -> (r: Vec<T>)
    ensures
        r@ == v@,
{
    let mut r: Vec<T> = Vec::new();
    let mut i: usize = 0;
    while i < v.len()
        invariant
            i <= v.len(),
            r@ == v@.subrange(0, i as int),
        decreases v.len() - i,
    {
        r.push(v[i]);
        i += 1;
        assert(r@ =~= v@.subrange(0, i as int));
    }
    assert(r@ =~= v@);
    r
}

/// A vector of `n` copies of `value`.
pub(crate) fn filled_vec<T: Copy>(value: T, n: usize) -> (r: Vec<T>)
    ensures
        r@ == Seq::new(n as nat, |i: int| value),
{
    let mut r: Vec<T> = Vec::new();
    let mut i: usize = 0;
    while i < n
        invariant
            i <= n,
            r@ == Seq::new(i as nat, |j: int| value),
        decreases n - i,
    {
        r.push(value);
        i += 1;
        assert(r@ =~= Seq::new(i as nat, |j: int| value));
    }
    r
}

impl Board {
    pub closed spec fn seed_view(&self) -> Option<u64> {
        self.seed
    }

    pub closed spec fn state_view(&self) -> State {
        self.state
    }

    pub closed spec fn height_view(&self) -> int {
        self.height as int
    }

    pub closed spec fn width_view(&self) -> int {
        self.width as int
    }

    /// The mine count the board was configured with.
    pub closed spec fn initial_mines_view(&self) -> int {
        self.initial_mines as int
    }

    /// Flags the player may still place.
    pub closed spec fn mines_view(&self) -> int {
        self.mines as int
    }

    pub closed spec fn cells_view(&self) -> Seq<Cell> {
        self.cells@
    }

    pub closed spec fn visible_view(&self) -> Seq<VisibleCell> {
        self.visible_cells@
    }

    pub open spec fn size(&self) -> int {
        self.height_view() * self.width_view()
    }

    pub open spec fn in_bounds(&self, p: (int, int)) -> bool {
        in_grid(self.width_view(), self.height_view(), p)
    }

    pub open spec fn cell_at(&self, p: (int, int)) -> Cell {
        self.cells_view()[grid_index(self.width_view(), p)]
    }

    pub open spec fn visible_at(&self, p: (int, int)) -> VisibleCell {
        self.visible_view()[grid_index(self.width_view(), p)]
    }

    /// Both grids have `height * width` entries.
    pub open spec fn well_shaped(&self) -> bool {
        &&& 0 <= self.height_view() <= 255
        &&& 0 <= self.width_view() <= 255
        &&& 0 <= self.mines_view() <= 255
        &&& 0 <= self.initial_mines_view() <= 255
        &&& self.cells_view().len() == self.size()
        &&& self.visible_view().len() == self.size()
    }

    /// Well-formedness of a board: see `game_wf`.
    pub open spec fn wf(&self) -> bool {
        game_wf(
            self.state_view(),
            self.height_view(),
            self.width_view(),
            self.initial_mines_view(),
            self.mines_view(),
            self.cells_view(),
            self.visible_view(),
        )
    }

    /// The state of a board just built for `height` rows, `width` columns and
    /// `mines` mines: nothing placed, everything covered, full flag budget.
    pub open spec fn is_fresh(&self, height: int, width: int, mines: int) -> bool {
        &&& self.wf()
        &&& self.state_view() == State::New
        &&& self.height_view() == height
        &&& self.width_view() == width
        &&& self.initial_mines_view() == mines
        &&& self.mines_view() == mines
        &&& self.cells_view() == Seq::new((height * width) as nat, |i: int| Cell::Empty)
        &&& self.visible_view() == Seq::new(
            (height * width) as nat,
            |i: int| VisibleCell::Covered,
        )
    }

    /// Two boards that no read operation can tell apart, the seed aside.
    pub open spec fn same_game(&self, other: &Board) -> bool {
        &&& self.state_view() == other.state_view()
        &&& self.height_view() == other.height_view()
        &&& self.width_view() == other.width_view()
        &&& self.initial_mines_view() == other.initial_mines_view()
        &&& self.mines_view() == other.mines_view()
        &&& self.cells_view() == other.cells_view()
        &&& self.visible_view() == other.visible_view()
    }

    pub fn new(height: u8, width: u8, mines: u8) -> (r: Self)
        ensures
            r.is_fresh(height as int, width as int, mines as int),
            r.seed_view() == None::<u64>,
    {
        proof {
            lemma_area(width as int, height as int);
        }
        let n = (height as usize) * (width as usize);
        let cells = filled_vec(Cell::Empty, n);
        let visible_cells = filled_vec(VisibleCell::Covered, n);
        let r = Self {
            seed: None,
            state: State::New,
            height,
            width,
            initial_mines: mines,
            mines,
            visible_cells,
            cells,
        };
        proof {
            lemma_no_flags(r.visible_cells@);
        }
        r
    }

    /// Row-major index of an on-board coordinate.
    fn index_of(&self, x: u8, y: u8) -> (i: usize)
        requires
            self.well_shaped(),
            self.in_bounds((x as int, y as int)),
        ensures
            i == grid_index(self.width_view(), (x as int, y as int)),
            i < self.size(),
    {
        proof {
            lemma_index_bounds(self.width as int, self.height as int, (x as int, y as int));
            lemma_area(self.width as int, self.height as int);
        }
        (y as usize) * (self.width as usize) + (x as usize)
    }

    pub fn get_cell(&self, x: u8, y: u8) -> (c: Cell)
        requires
            self.well_shaped(),
            self.in_bounds((x as int, y as int)),
        ensures
            c == self.cell_at((x as int, y as int)),
    {
        let i = self.index_of(x, y);
        self.cells[i]
    }

    pub fn get_visible_cell(&self, x: u8, y: u8) -> (v: VisibleCell)
        requires
            self.well_shaped(),
            self.in_bounds((x as int, y as int)),
        ensures
            v == self.visible_at((x as int, y as int)),
    {
        let i = self.index_of(x, y);
        self.visible_cells[i]
    }

    fn is_valid_coordinate(&self, x: i16, y: i16) -> (r: bool)
        ensures
            r == self.in_bounds((x as int, y as int)),
    {
        x >= 0 && x < self.width as i16 && y >= 0 && y < self.height as i16
    }

    fn is_mine(&self, x: i16, y: i16) -> (r: bool)
        requires
            self.well_shaped(),
        ensures
            r == mine_at(self.width_view(), self.height_view(), self.cells_view(), (x as int, y as int)),
    {
        self.is_valid_coordinate(x, y) && self.get_cell(x as u8, y as u8) == Cell::Mine
    }

    /// Number of mines among the neighbours of an on-board coordinate.
    fn count_adjacent_mines(&self, x: u8, y: u8) -> (n: u8)
        requires
            self.well_shaped(),
            self.in_bounds((x as int, y as int)),
        ensures
            n == mines_around(self.width_view(), self.height_view(), self.cells_view(), (x as int, y as int)),
            n <= 8,
    {
        let mut n: u8 = 0;
        let mut k: usize = 0;
        while k < 8
            invariant
                self.well_shaped(),
                k <= 8,
                n <= k,
                n == mines_around_upto(
                    self.width_view(),
                    self.height_view(),
                    self.cells_view(),
                    (x as int, y as int),
                    k as int,
                ),
            decreases 8 - k,
        {
            let offset = adjacent_offset(k);
            if self.is_mine(x as i16 + offset.x, y as i16 + offset.y) {
                n += 1;
            }
            k += 1;
        }
        n
    }

    fn set_cell(&mut self, x: u8, y: u8, cell: Cell)
        requires
            old(self).well_shaped(),
            old(self).in_bounds((x as int, y as int)),
        ensures
            final(self).cells_view() == old(self).cells_view().update(
                grid_index(old(self).width_view(), (x as int, y as int)),
                cell,
            ),
            final(self).visible_view() == old(self).visible_view(),
            final(self).state_view() == old(self).state_view(),
            final(self).height_view() == old(self).height_view(),
            final(self).width_view() == old(self).width_view(),
            final(self).initial_mines_view() == old(self).initial_mines_view(),
            final(self).mines_view() == old(self).mines_view(),
            final(self).seed_view() == old(self).seed_view(),
    {
        let i = self.index_of(x, y);
        self.cells.set(i, cell);
    }

    /// Puts the clue count into an on-board cell that is not a mine.
    fn generate_cell_clue(&mut self, x: u8, y: u8)
        requires
            old(self).well_shaped(),
            old(self).in_bounds((x as int, y as int)),
        ensures
            final(self).cells_view() == (if old(self).cell_at((x as int, y as int)) == Cell::Mine {
                old(self).cells_view()
            } else {
                old(self).cells_view().update(
                    grid_index(old(self).width_view(), (x as int, y as int)),
                    clue_for(
                        mines_around(
                            old(self).width_view(),
                            old(self).height_view(),
                            old(self).cells_view(),
                            (x as int, y as int),
                        ),
                    ),
                )
            }),
            final(self).visible_view() == old(self).visible_view(),
            final(self).state_view() == old(self).state_view(),
            final(self).height_view() == old(self).height_view(),
            final(self).width_view() == old(self).width_view(),
            final(self).initial_mines_view() == old(self).initial_mines_view(),
            final(self).mines_view() == old(self).mines_view(),
            final(self).seed_view() == old(self).seed_view(),
    {
        if self.get_cell(x, y) == Cell::Mine {
            return;
        }
        let adjacent_mines = self.count_adjacent_mines(x, y);
        if adjacent_mines > 0 {
            self.set_cell(x, y, Cell::Clue(adjacent_mines));
        } else {
            self.set_cell(x, y, Cell::Empty);
        }
    }

    /// Toggles the flag on a coordinate while the game is being played:
    /// a covered coordinate takes a flag if the budget allows, a flagged one
    /// gives it back; anything else is left as it is.
    pub fn flag_cell(&mut self, x: u8, y: u8)
        requires
            old(self).wf(),
            old(self).in_bounds((x as int, y as int)),
        ensures
            final(self).wf(),
            flag_step(*old(self), (x as int, y as int), *final(self)),
    {
        if self.state != State::Playing {
            return;
        }
        let i = self.index_of(x, y);
        let v = self.visible_cells[i];
        proof {
            lemma_count_update(self.visible_cells@, |v| is_flagged(v), i as int, VisibleCell::Covered);
            lemma_count_update(self.visible_cells@, |v| is_flagged(v), i as int, VisibleCell::Flagged);
        }
        if v == VisibleCell::Covered && self.mines > 0 {
            self.visible_cells.set(i, VisibleCell::Flagged);
            self.mines -= 1;
        } else if v == VisibleCell::Flagged {
            self.visible_cells.set(i, VisibleCell::Covered);
            self.mines += 1;
        }
    }

    /// Whether every coordinate that is not a mine has been uncovered.
    fn is_everything_uncovered(&self) -> (r: bool)
        requires
            self.wf(),
        ensures
            r == all_safe_uncovered(self.cells_view(), self.visible_view()),
    {
        let mut i: usize = 0;
        while i < self.cells.len()
            invariant
                self.wf(),
                i <= self.cells.len(),
                forall|j: int|
                    0 <= j < i && #[trigger] self.cells@[j] != Cell::Mine ==> self.visible_cells@[j] is Uncovered,
            decreases self.cells.len() - i,
        {
            match self.visible_cells[i] {
                VisibleCell::Uncovered(_) => {},
                _ => {
                    if self.cells[i] != Cell::Mine {
                        return false;
                    }
                },
            }
            i += 1;
        }
        true
    }

    /// Flood fill from `(x, y)`, an `Empty` coordinate that has just been
    /// uncovered over the earlier view `vis0`: every coordinate that the
    /// reveal reaches is uncovered, and nothing else changes.
    fn uncover_empty_cells(&mut self, x: u8, y: u8, vis0: Ghost<Seq<VisibleCell>>)
        requires
            old(self).wf(),
            old(self).state_view() != State::New,
            old(self).in_bounds((x as int, y as int)),
            old(self).cell_at((x as int, y as int)) == Cell::Empty,
            vis0@.len() == old(self).size(),
            old(self).visible_view() == vis0@.update(
                grid_index(old(self).width_view(), (x as int, y as int)),
                VisibleCell::Uncovered(Cell::Empty),
            ),
        ensures
            final(self).wf(),
            final(self).seed_view() == old(self).seed_view(),
            final(self).state_view() == old(self).state_view(),
            final(self).height_view() == old(self).height_view(),
            final(self).width_view() == old(self).width_view(),
            final(self).initial_mines_view() == old(self).initial_mines_view(),
            final(self).mines_view() == old(self).mines_view(),
            final(self).cells_view() == old(self).cells_view(),
            final(self).visible_view().len() == old(self).size(),
            forall|q: (int, int)|
                old(self).in_bounds(q) ==> #[trigger] final(self).visible_at(q) == if revealed_by(
                    old(self).width_view(),
                    old(self).height_view(),
                    old(self).cells_view(),
                    vis0@,
                    (x as int, y as int),
                    q,
                ) {
                    VisibleCell::Uncovered(old(self).cell_at(q))
                } else {
                    vis0@[grid_index(old(self).width_view(), q)]
                },
            forall|q: (int, int)|
                old(self).in_bounds(q) && !(vis0@[grid_index(old(self).width_view(), q)] is Uncovered)
                    && #[trigger] final(self).visible_at(q) is Uncovered ==> final(self).cell_at(q)
                    != Cell::Mine,
    {
        let ghost w = self.width as int;
        let ghost h = self.height as int;
        let ghost cells = self.cells@;
        let ghost start = (x as int, y as int);
        let ghost mut exp: Set<(int, int)> = set![start];
        let ghost mut done: Set<(int, int)> = Set::empty();
        let ghost mut unc: Set<(int, int)> = set![start];
        let ghost mut parent: Map<(int, int), (int, int)> = Map::empty();
        let ghost mut paths: Map<(int, int), Seq<(int, int)>> = map![start => seq![start]];
        let mut work: Vec<(u8, u8)> = vec![(x, y)];
        proof {
            assert(cells[grid_index(w, start)] == Cell::Empty);
            assert(self.visible_cells@ == vis0@.update(grid_index(w, start), VisibleCell::Uncovered(Cell::Empty)));
            lemma_index_bounds(w, h, start);
            assert forall|q: (int, int)| in_grid(w, h, q) implies #[trigger] self.visible_cells@[grid_index(w, q)]
                == if unc.contains(q) {
                VisibleCell::Uncovered(cells[grid_index(w, q)])
            } else {
                vis0@[grid_index(w, q)]
            } by {
                lemma_index_bounds(w, h, q);
                if q != start && grid_index(w, q) == grid_index(w, start) {
                    lemma_index_injective(w, h, q, start);
                }
                if q == start {
                    assert(unc.contains(q));
                    assert(self.visible_cells@[grid_index(w, q)] == VisibleCell::Uncovered(Cell::Empty));
                } else {
                    assert(!unc.contains(q));
                }
            }
            assert(is_fill_path(w, h, cells, vis0@, seq![start]));
        }
        while work.len() > 0
            invariant
                self.wf(),
                self.seed_view() == old(self).seed_view(),
                self.state_view() == old(self).state_view(),
                self.state_view() != State::New,
                self.height_view() == h,
                self.width_view() == w,
                self.initial_mines_view() == old(self).initial_mines_view(),
                self.mines_view() == old(self).mines_view(),
                self.cells_view() == cells,
                cells == old(self).cells_view(),
                w == old(self).width_view(),
                h == old(self).height_view(),
                in_grid(w, h, start),
                start == (x as int, y as int),
                cells[grid_index(w, start)] == Cell::Empty,
                vis0@.len() == h * w,
                forall|q: (int, int)|
                    in_grid(w, h, q) ==> #[trigger] self.visible_cells@[grid_index(w, q)] == if unc.contains(
                        q,
                    ) {
                        VisibleCell::Uncovered(cells[grid_index(w, q)])
                    } else {
                        vis0@[grid_index(w, q)]
                    },
                forall|q: (int, int)|
                    #[trigger] unc.contains(q) ==> in_grid(w, h, q) && (q == start || (done.contains(
                        parent[q],
                    ) && adjacent(parent[q], q))),
                forall|e: (int, int), q: (int, int)|
                    #[trigger] done.contains(e) && in_grid(w, h, q) && #[trigger] adjacent(e, q)
                        ==> unc.contains(q),
                forall|e: (int, int)|
                    #[trigger] exp.contains(e) ==> is_fill_path(w, h, cells, vis0@, paths[e])
                        && paths[e][0] == start && paths[e].last() == e,
                exp.subset_of(unc),
                done.subset_of(exp),
                exp.contains(start),
                forall|q: (int, int)|
                    #[trigger] unc.contains(q) && in_grid(w, h, q) && cells[grid_index(w, q)]
                        == Cell::Empty && vis0@[grid_index(w, q)] == VisibleCell::Covered
                        ==> exp.contains(q),
                forall|j: int|
                    0 <= j < work.len() ==> in_grid(w, h, (#[trigger] work@[j].0 as int, work@[j].1 as int))
                        && exp.contains((work@[j].0 as int, work@[j].1 as int)) && !done.contains(
                        (work@[j].0 as int, work@[j].1 as int),
                    ),
                forall|i: int, j: int|
                    0 <= i < work.len() && 0 <= j < work.len() && i != j ==> #[trigger] work@[i]
                        != #[trigger] work@[j],
                exp.finite(),
                done.finite(),
                exp.len() == done.len() + work.len(),
            decreases 2 * count_matching(self.visible_cells@, |v| is_hidden(v)) + work.len(),
        {
            let ghost measure = 2 * count_matching(self.visible_cells@, |v| is_hidden(v)) + work.len();
            let ghost work_before = work@;
            let (ex, ey) = work.pop().unwrap();
            let ghost e = (ex as int, ey as int);
            proof {
                assert(work_before[work_before.len() - 1] == (ex, ey));
                assert(work@ == work_before.drop_last());
                assert forall|j: int| 0 <= j < work.len() implies !(#[trigger] work@[j].0 as int == e.0
                    && work@[j].1 as int == e.1) by {
                    assert(work@[j] == work_before[j]);
                    assert(work_before[j] != work_before[work_before.len() - 1]);
                }
                assert(in_grid(w, h, e));
                assert(exp.contains(e));
                done = done.insert(e);
            }
            let mut k: usize = 0;
            while k < 8
                invariant
                    self.wf(),
                    self.seed_view() == old(self).seed_view(),
                    self.state_view() == old(self).state_view(),
                    self.state_view() != State::New,
                    self.height_view() == h,
                    self.width_view() == w,
                    self.initial_mines_view() == old(self).initial_mines_view(),
                    self.mines_view() == old(self).mines_view(),
                    self.cells_view() == cells,
                    cells == old(self).cells_view(),
                    in_grid(w, h, start),
                    cells[grid_index(w, start)] == Cell::Empty,
                    vis0@.len() == h * w,
                    e == (ex as int, ey as int),
                    in_grid(w, h, e),
                    done.contains(e),
                    k <= 8,
                    forall|q: (int, int)|
                        in_grid(w, h, q) ==> #[trigger] self.visible_cells@[grid_index(w, q)]
                            == if unc.contains(q) {
                            VisibleCell::Uncovered(cells[grid_index(w, q)])
                        } else {
                            vis0@[grid_index(w, q)]
                        },
                    forall|q: (int, int)|
                        #[trigger] unc.contains(q) ==> in_grid(w, h, q) && (q == start || (
                        done.contains(parent[q]) && adjacent(parent[q], q))),
                    forall|e2: (int, int), q: (int, int)|
                        #[trigger] done.contains(e2) && e2 != e && in_grid(w, h, q) && #[trigger] adjacent(
                            e2,
                            q,
                        ) ==> unc.contains(q),
                    forall|j: int|
                        0 <= j < k && in_grid(w, h, (e.0 + offset_x(j), e.1 + offset_y(j)))
                            ==> #[trigger] unc.contains((e.0 + offset_x(j), e.1 + offset_y(j))),
                    forall|e2: (int, int)|
                        #[trigger] exp.contains(e2) ==> is_fill_path(w, h, cells, vis0@, paths[e2])
                            && paths[e2][0] == start && paths[e2].last() == e2,
                    exp.subset_of(unc),
                    done.subset_of(exp),
                    exp.contains(start),
                    forall|q: (int, int)|
                        #[trigger] unc.contains(q) && in_grid(w, h, q) && cells[grid_index(w, q)]
                            == Cell::Empty && vis0@[grid_index(w, q)] == VisibleCell::Covered
                            ==> exp.contains(q),
                    forall|j: int|
                        0 <= j < work.len() ==> in_grid(
                            w,
                            h,
                            (#[trigger] work@[j].0 as int, work@[j].1 as int),
                        ) && exp.contains((work@[j].0 as int, work@[j].1 as int)) && !done.contains(
                            (work@[j].0 as int, work@[j].1 as int),
                        ),
                    forall|i: int, j: int|
                        0 <= i < work.len() && 0 <= j < work.len() && i != j ==> #[trigger] work@[i]
                            != #[trigger] work@[j],
                    exp.finite(),
                    done.finite(),
                    exp.len() == done.len() + work.len(),
                    2 * count_matching(self.visible_cells@, |v| is_hidden(v)) + work.len() < measure,
                decreases 8 - k,
            {
                let offset = adjacent_offset(k);
                let nx = ex as i16 + offset.x;
                let ny = ey as i16 + offset.y;
                if self.is_valid_coordinate(nx, ny) {
                    let qx = nx as u8;
                    let qy = ny as u8;
                    let ghost q = (qx as int, qy as int);
                    let i = self.index_of(qx, qy);
                    let before = self.visible_cells[i];
                    let c = self.cells[i];
                    let ghost vis_before = self.visible_cells@;
                    proof {
                        lemma_count_update(
                            vis_before,
                            |v| is_hidden(v),
                            i as int,
                            VisibleCell::Uncovered(c),
                        );
                        lemma_count_update(
                            vis_before,
                            |v| is_flagged(v),
                            i as int,
                            VisibleCell::Uncovered(c),
                        );
                        lemma_offsets_cover_neighbours(e, q);
                        assert(adjacent(e, q));
                    }
                    self.visible_cells.set(i, VisibleCell::Uncovered(c));
                    proof {
                        if !unc.contains(q) {
                            parent = parent.insert(q, e);
                        }
                        unc = unc.insert(q);
                        assert(self.wf()) by {
                            assert(count_matching(self.visible_cells@, |v| is_flagged(v))
                                <= count_matching(vis_before, |v| is_flagged(v)));
                            assert forall|i2: int|
                                0 <= i2 < self.size() && (#[trigger] self.visible_view()[i2]) is Uncovered
                                    implies self.visible_view()[i2] == VisibleCell::Uncovered(
                                self.cells_view()[i2],
                            ) by {
                                if i2 != i {
                                    assert(self.visible_view()[i2] == vis_before[i2]);
                                }
                            }
                        }
                        assert forall|q2: (int, int)| in_grid(w, h, q2) implies #[trigger] self.visible_cells@[grid_index(w, q2)]
                            == if unc.contains(q2) {
                            VisibleCell::Uncovered(cells[grid_index(w, q2)])
                        } else {
                            vis0@[grid_index(w, q2)]
                        } by {
                            lemma_index_bounds(w, h, q2);
                            if q2 != q && grid_index(w, q2) == grid_index(w, q) {
                                lemma_index_injective(w, h, q2, q);
                            }
                        }
                    }
                    if c == Cell::Empty && before == VisibleCell::Covered {
                        proof {
                            assert(!exp.contains(q));
                            assert forall|j: int| 0 <= j < work.len() implies #[trigger] work@[j] != (
                                qx,
                                qy,
                            ) by {
                                assert(exp.contains((work@[j].0 as int, work@[j].1 as int)));
                            }
                        }
                        let ghost work_mid = work@;
                        work.push((qx, qy));
                        proof {
                            assert(work@[work@.len() - 1] == (qx, qy));
                            assert forall|j: int| 0 <= j < work_mid.len() implies #[trigger] work@[j]
                                == work_mid[j] by {}
                            let pe = paths[e];
                            let pq = pe.push(q);
                            assert(is_fill_path(w, h, cells, vis0@, pq)) by {
                                assert forall|j: int| 0 <= j < pq.len() - 1 implies adjacent(
                                    #[trigger] pq[j],
                                    pq[j + 1],
                                ) by {
                                    if j < pq.len() - 2 {
                                        assert(adjacent(pe[j], pe[j + 1]));
                                    }
                                }
                                assert forall|j: int| 0 < j < pq.len() implies vis0@[grid_index(
                                    w,
                                    #[trigger] pq[j],
                                )] == VisibleCell::Covered by {
                                    if j < pq.len() - 1 {
                                        assert(pq[j] == pe[j]);
                                    }
                                }
                                assert forall|j: int| 0 <= j < pq.len() implies in_grid(
                                    w,
                                    h,
                                    #[trigger] pq[j],
                                ) && cells[grid_index(w, pq[j])] == Cell::Empty by {
                                    if j < pq.len() - 1 {
                                        assert(pq[j] == pe[j]);
                                    }
                                }
                            }
                            paths = paths.insert(q, pq);
                            exp = exp.insert(q);
                        }
                    }
                }
                k += 1;
            }
            proof {
                assert forall|e2: (int, int), q: (int, int)|
                    #[trigger] done.contains(e2) && in_grid(w, h, q) && #[trigger] adjacent(
                        e2,
                        q,
                    ) implies unc.contains(q) by {
                    if e2 == e {
                        lemma_offsets_cover_neighbours(e, q);
                        let j = choose|j: int| 0 <= j < 8 && q == (e.0 + offset_x(j), e.1 + offset_y(j));
                        assert(unc.contains((e.0 + offset_x(j), e.1 + offset_y(j))));
                    }
                }
            }
        }
        proof {
            if exists|z: (int, int)| exp.contains(z) && !done.contains(z) {
                let z = choose|z: (int, int)| exp.contains(z) && !done.contains(z);
                assert(done.subset_of(exp.remove(z)));
                vstd::set_lib::lemma_len_subset(done, exp.remove(z));
            }
            assert(exp =~= done);
            assert forall|q: (int, int)| in_grid(w, h, q) implies #[trigger] self.visible_cells@[grid_index(w, q)]
                == if revealed_by(w, h, cells, vis0@, start, q) {
                VisibleCell::Uncovered(cells[grid_index(w, q)])
            } else {
                vis0@[grid_index(w, q)]
            } by {
                if unc.contains(q) && q != start {
                    let p = parent[q];
                    assert(expands(w, h, cells, vis0@, start, p)) by {
                        assert(is_fill_path(w, h, cells, vis0@, paths[p]));
                    }
                }
                if revealed_by(w, h, cells, vis0@, start, q) && q != start {
                    let e2 = choose|e2: (int, int)|
                        #[trigger] expands(w, h, cells, vis0@, start, e2) && adjacent(e2, q);
                    let path = choose|path: Seq<(int, int)>|
                        is_fill_path(w, h, cells, vis0@, path) && path[0] == start && path.last() == e2;
                    lemma_path_closed(w, h, cells, vis0@, path, exp, unc);
                    assert(exp.contains(path[path.len() - 1]));
                }
            }
        }
        proof {
            assert forall|q: (int, int)|
                in_grid(w, h, q) && !(vis0@[grid_index(w, q)] is Uncovered)
                    && #[trigger] self.visible_at(q) is Uncovered implies self.cell_at(q)
                != Cell::Mine by {
                if q != start {
                    assert(revealed_by(w, h, cells, vis0@, start, q));
                    lemma_fill_uncovers_no_mine(*self, vis0@, start, q);
                }
            }
        }
    }

    /// The coordinate clicked first and its on-board neighbours: the
    /// coordinates that mine placement leaves free.
    fn get_starting_positions(&self, starting_x: u8, starting_y: u8) -> (r: Vec<Position>)
        requires
            self.in_bounds((starting_x as int, starting_y as int)),
        ensures
            forall|j: int|
                0 <= j < r.len() ==> in_safe_zone(
                    (starting_x as int, starting_y as int),
                    (#[trigger] r@[j].x as int, r@[j].y as int),
                ),
            forall|p: (int, int)|
                self.in_bounds(p) && in_safe_zone((starting_x as int, starting_y as int), p)
                    ==> #[trigger] holds_coordinate(r@, p),
            1 <= r.len() <= 9,
            r@[0].x == starting_x,
            r@[0].y == starting_y,
            forall|j: int| 0 <= j < r.len() ==> self.in_bounds((#[trigger] r@[j].x as int, r@[j].y as int)),
            forall|i: int, j: int| 0 <= i < j < r.len() ==> #[trigger] r@[i] != #[trigger] r@[j],
    {
        let mut starting_positions = vec![Position { x: starting_x as i16, y: starting_y as i16 }];
        let ghost s = (starting_x as int, starting_y as int);
        let ghost mut ks: Seq<int> = Seq::empty();
        let mut k: usize = 0;
        while k < 8
            invariant
                k <= 8,
                self.in_bounds(s),
                s == (starting_x as int, starting_y as int),
                starting_positions@.len() > 0,
                starting_positions@.len() <= k + 1,
                ks.len() + 1 == starting_positions@.len(),
                forall|j: int| 0 <= j < ks.len() ==> 0 <= #[trigger] ks[j] < k,
                forall|i: int, j: int| 0 <= i < j < ks.len() ==> #[trigger] ks[i] < #[trigger] ks[j],
                forall|j: int|
                    0 <= j < ks.len() ==> (#[trigger] starting_positions@[j + 1]).x as int == s.0
                        + offset_x(ks[j]) && starting_positions@[j + 1].y as int == s.1 + offset_y(
                        ks[j],
                    ),
                forall|j: int|
                    0 <= j < starting_positions.len() ==> self.in_bounds(
                        (#[trigger] starting_positions@[j].x as int, starting_positions@[j].y as int),
                    ),
                starting_positions@[0].x == starting_x,
                starting_positions@[0].y == starting_y,
                forall|j: int|
                    0 <= j < starting_positions.len() ==> in_safe_zone(
                        s,
                        (#[trigger] starting_positions@[j].x as int, starting_positions@[j].y as int),
                    ),
                forall|kk: int|
                    0 <= kk < k && self.in_bounds((s.0 + offset_x(kk), s.1 + offset_y(kk)))
                        ==> #[trigger] holds_coordinate(
                        starting_positions@,
                        (s.0 + offset_x(kk), s.1 + offset_y(kk)),
                    ),
            decreases 8 - k,
        {
            let offset = adjacent_offset(k);
            let adjacent_x = starting_x as i16 + offset.x;
            let adjacent_y = starting_y as i16 + offset.y;
            if self.is_valid_coordinate(adjacent_x, adjacent_y) {
                let ghost before = starting_positions@;
                starting_positions.push(Position { x: adjacent_x, y: adjacent_y });
                proof {
                    let ks0 = ks;
                    ks = ks.push(k as int);
                    assert forall|j: int| 0 <= j < ks.len() implies (#[trigger] starting_positions@[j
                        + 1]).x as int == s.0 + offset_x(ks[j]) && starting_positions@[j + 1].y as int
                        == s.1 + offset_y(ks[j]) by {
                        if j < ks0.len() {
                            assert(starting_positions@[j + 1] == before[j + 1]);
                        }
                    }
                    assert forall|j: int|
                        0 <= j < starting_positions.len() implies self.in_bounds(
                        (#[trigger] starting_positions@[j].x as int, starting_positions@[j].y as int),
                    ) by {
                        if j < before.len() {
                            assert(starting_positions@[j] == before[j]);
                        }
                    }
                    assert forall|kk: int|
                        0 <= kk < k + 1 && self.in_bounds((s.0 + offset_x(kk), s.1 + offset_y(kk)))
                            implies #[trigger] holds_coordinate(
                        starting_positions@,
                        (s.0 + offset_x(kk), s.1 + offset_y(kk)),
                    ) by {
                        let q = (s.0 + offset_x(kk), s.1 + offset_y(kk));
                        if kk < k {
                            assert(holds_coordinate(before, q));
                            let j = choose|j: int|
                                0 <= j < before.len() && (#[trigger] before[j]).x as int == q.0
                                    && before[j].y as int == q.1;
                            assert(starting_positions@[j] == before[j]);
                        } else {
                            assert(starting_positions@[before.len() as int].x as int == q.0);
                        }
                    }
                }
            }
            k += 1;
        }
        proof {
            assert forall|p: (int, int)|
                self.in_bounds(p) && in_safe_zone(s, p) implies #[trigger] holds_coordinate(
                starting_positions@,
                p,
            ) by {
                if p != s {
                    lemma_offsets_cover_neighbours(s, p);
                    let kk = choose|kk: int|
                        0 <= kk < 8 && p == (s.0 + offset_x(kk), s.1 + offset_y(kk));
                    assert(self.in_bounds((s.0 + offset_x(kk), s.1 + offset_y(kk))));
                } else {
                    assert(starting_positions@[0].x as int == p.0);
                }
            }
            assert forall|i: int, j: int|
                0 <= i < j < starting_positions.len() implies #[trigger] starting_positions@[i]
                != #[trigger] starting_positions@[j] by {
                let pj = starting_positions@[j];
                assert(starting_positions@[(j - 1) + 1] == pj);
                assert(pj.x as int == s.0 + offset_x(ks[j - 1]));
                assert(pj.y as int == s.1 + offset_y(ks[j - 1]));
                if i > 0 {
                    let pi = starting_positions@[i];
                    assert(starting_positions@[(i - 1) + 1] == pi);
                    assert(pi.x as int == s.0 + offset_x(ks[i - 1]));
                    assert(pi.y as int == s.1 + offset_y(ks[i - 1]));
                    assert(ks[i - 1] < ks[j - 1]);
                    lemma_offsets_distinct(ks[i - 1], ks[j - 1]);
                } else {
                    lemma_offsets_distinct(ks[j - 1], ks[j - 1]);
                }
            }
        }
        starting_positions
    }

    /// Draws mines for the first reveal. Each mine goes to a uniformly drawn
    /// coordinate that is still `Empty` and not among `starting_positions`;
    /// a draw that misses is repeated. After `MAX_DRAWS` misses in a row the
    /// first free coordinate in row-major order takes the mine, and when no
    /// coordinate is free, placement stops.
    #[verifier::loop_isolation(false)]
    fn generate_mines(&mut self, starting_positions: &Vec<Position>, rng: &mut rand::rngs::StdRng)
        requires
            old(self).wf(),
            old(self).state_view() == State::New,
            old(self).size() > 0,
        ensures
            old(self).mines_view() == old(self).initial_mines_view(),
            final(self).seed_view() == old(self).seed_view(),
            final(self).state_view() == old(self).state_view(),
            final(self).height_view() == old(self).height_view(),
            final(self).width_view() == old(self).width_view(),
            final(self).initial_mines_view() == old(self).initial_mines_view(),
            final(self).mines_view() == old(self).mines_view(),
            final(self).visible_view() == old(self).visible_view(),
            final(self).cells_view().len() == old(self).size(),
            forall|i: int|
                0 <= i < old(self).size() ==> #[trigger] final(self).cells_view()[i] == Cell::Empty
                    || final(self).cells_view()[i] == Cell::Mine,
            forall|j: int|
                0 <= j < starting_positions.len() && old(self).in_bounds(
                    (#[trigger] starting_positions@[j].x as int, starting_positions@[j].y as int),
                ) ==> final(self).cell_at(
                    (starting_positions@[j].x as int, starting_positions@[j].y as int),
                ) != Cell::Mine,
            count_matching(final(self).cells_view(), |c| is_mine_cell(c))
                <= old(self).initial_mines_view(),
            count_matching(final(self).cells_view(), |c| is_mine_cell(c))
                < old(self).initial_mines_view() ==> forall|p: (int, int)|
                old(self).in_bounds(p) && !holds_coordinate(starting_positions@, p)
                    ==> #[trigger] final(self).cell_at(p) == Cell::Mine,
    {
        proof {
            assert(count_matching(self.cells@, |c| is_mine_cell(c)) == 0) by {
                lemma_no_mines(self.cells@);
            }
            if self.width == 0 || self.height == 0 {
                assert(self.height_view() * self.width_view() == 0) by (nonlinear_arith)
                    requires
                        self.width_view() == 0 || self.height_view() == 0,
                ;
            }
            assert forall|j: int|
                0 <= j < starting_positions.len() && self.in_bounds(
                    (#[trigger] starting_positions@[j].x as int, starting_positions@[j].y as int),
                ) implies self.cell_at(
                (starting_positions@[j].x as int, starting_positions@[j].y as int),
            ) != Cell::Mine by {
                lemma_index_bounds(
                    self.width as int,
                    self.height as int,
                    (starting_positions@[j].x as int, starting_positions@[j].y as int),
                );
            }
        }
        let mut placed: u8 = 0;
        while placed < self.initial_mines
            invariant
                self.well_shaped(),
                self.seed_view() == old(self).seed_view(),
                self.state_view() == old(self).state_view(),
                self.height_view() == old(self).height_view(),
                self.width_view() == old(self).width_view(),
                self.initial_mines_view() == old(self).initial_mines_view(),
                self.mines_view() == old(self).mines_view(),
                self.visible_view() == old(self).visible_view(),
                self.size() > 0,
                self.width > 0,
                self.height > 0,
                placed <= self.initial_mines,
                count_matching(self.cells@, |c| is_mine_cell(c)) == placed,
                forall|i: int|
                    0 <= i < self.size() ==> #[trigger] self.cells@[i] == Cell::Empty || self.cells@[i]
                        == Cell::Mine,
                forall|j: int|
                    0 <= j < starting_positions.len() && self.in_bounds(
                        (#[trigger] starting_positions@[j].x as int, starting_positions@[j].y as int),
                    ) ==> self.cell_at(
                        (starting_positions@[j].x as int, starting_positions@[j].y as int),
                    ) != Cell::Mine,
            decreases self.initial_mines - placed,
        {
            let mut spot: Option<(u8, u8)> = None;
            let mut draws: u32 = 0;
            while spot.is_none() && draws < MAX_DRAWS
                invariant
                    self.well_shaped(),
                    self.size() > 0,
                    draws <= MAX_DRAWS,
                    spot matches Some((sx, sy)) ==> self.is_free(starting_positions, sx, sy),
                decreases MAX_DRAWS - draws,
            {
                let x = gen_below(rng, self.width);
                let y = gen_below(rng, self.height);
                if self.get_cell(x, y) == Cell::Empty && !contains_position(starting_positions, x, y) {
                    spot = Some((x, y));
                }
                draws += 1;
            }
            if spot.is_none() {
                spot = self.first_free_cell(starting_positions);
            }
            match spot {
                Some((x, y)) => {
                    let i = self.index_of(x, y);
                    proof {
                        lemma_count_update(self.cells@, |c| is_mine_cell(c), i as int, Cell::Mine);
                        assert(self.is_free(starting_positions, x, y));
                    }
                    let ghost cells_before = self.cells@;
                    self.set_cell(x, y, Cell::Mine);
                    placed += 1;
                    proof {
                        assert forall|j: int|
                            0 <= j < starting_positions.len() && self.in_bounds(
                                (#[trigger] starting_positions@[j].x as int, starting_positions@[j].y as int),
                            ) implies self.cell_at(
                                (starting_positions@[j].x as int, starting_positions@[j].y as int),
                            ) != Cell::Mine by {
                            let q = (starting_positions@[j].x as int, starting_positions@[j].y as int);
                            lemma_index_bounds(self.width as int, self.height as int, q);
                            assert(cells_before[grid_index(self.width as int, q)] != Cell::Mine);
                            if grid_index(self.width as int, q) == i {
                                lemma_index_injective(self.width as int, self.height as int, q, (x as int, y as int));
                                assert(holds_coordinate(starting_positions@, (x as int, y as int)));
                            }
                        }
                    }
                },
                None => {
                    proof {
                        assert forall|p: (int, int)|
                            self.in_bounds(p) && !holds_coordinate(starting_positions@, p)
                                implies #[trigger] self.cell_at(p) == Cell::Mine by {
                            lemma_index_bounds(self.width as int, self.height as int, p);
                        }
                    }
                    return;
                },
            }
        }
    }

    /// `(x, y)` is on the board, still `Empty` and not among `positions`.
    closed spec fn is_free(&self, positions: &Vec<Position>, x: u8, y: u8) -> bool {
        &&& self.in_bounds((x as int, y as int))
        &&& self.cell_at((x as int, y as int)) == Cell::Empty
        &&& !holds_coordinate(positions@, (x as int, y as int))
    }

    /// The first free coordinate in row-major order, if there is one.
    fn first_free_cell(&self, positions: &Vec<Position>) -> (r: Option<(u8, u8)>)
        requires
            self.well_shaped(),
        ensures
            r matches Some((x, y)) ==> self.is_free(positions, x, y),
            r is None ==> forall|p: (int, int)|
                self.in_bounds(p) && #[trigger] self.cell_at(p) == Cell::Empty ==> holds_coordinate(
                    positions@,
                    p,
                ),
    {
        let mut y: u8 = 0;
        while y < self.height
            invariant
                self.well_shaped(),
                y <= self.height,
                forall|p: (int, int)|
                    self.in_bounds(p) && p.1 < y && #[trigger] self.cell_at(p) == Cell::Empty
                        ==> holds_coordinate(positions@, p),
            decreases self.height - y,
        {
            let mut x: u8 = 0;
            while x < self.width
                invariant
                    self.well_shaped(),
                    y < self.height,
                    x <= self.width,
                    forall|p: (int, int)|
                        self.in_bounds(p) && (p.1 < y || (p.1 == y && p.0 < x)) && #[trigger] self.cell_at(p)
                            == Cell::Empty ==> holds_coordinate(positions@, p),
                decreases self.width - x,
            {
                if self.get_cell(x, y) == Cell::Empty && !contains_position(positions, x, y) {
                    return Some((x, y));
                }
                x += 1;
            }
            y += 1;
        }
        None
    }

    /// Puts the clue count into every cell that is not a mine, leaving the
    /// mines where they are.
    fn generate_clues(&mut self)
        requires
            old(self).well_shaped(),
        ensures
            final(self).well_shaped(),
            final(self).seed_view() == old(self).seed_view(),
            final(self).state_view() == old(self).state_view(),
            final(self).height_view() == old(self).height_view(),
            final(self).width_view() == old(self).width_view(),
            final(self).initial_mines_view() == old(self).initial_mines_view(),
            final(self).mines_view() == old(self).mines_view(),
            final(self).visible_view() == old(self).visible_view(),
            forall|i: int|
                0 <= i < old(self).size() ==> (#[trigger] final(self).cells_view()[i] == Cell::Mine)
                    == (old(self).cells_view()[i] == Cell::Mine),
            clues_hold(final(self).width_view(), final(self).height_view(), final(self).cells_view()),
    {
        let ghost w = self.width as int;
        let ghost h = self.height as int;
        let ghost cells0 = self.cells@;
        proof {
            lemma_all_index_bounds(w, h);
        }
        let mut y: u8 = 0;
        while y < self.height
            invariant
                self.well_shaped(),
                w == self.width_view(),
                h == self.height_view(),
                self.seed_view() == old(self).seed_view(),
                self.state_view() == old(self).state_view(),
                self.height_view() == old(self).height_view(),
                self.width_view() == old(self).width_view(),
                self.initial_mines_view() == old(self).initial_mines_view(),
                self.mines_view() == old(self).mines_view(),
                self.visible_view() == old(self).visible_view(),
                cells0 == old(self).cells_view(),
                y <= self.height,
                forall|q: (int, int)| in_grid(w, h, q) ==> 0 <= #[trigger] grid_index(w, q) < h * w,
                forall|i: int|
                    0 <= i < h * w ==> (#[trigger] self.cells@[i] == Cell::Mine) == (cells0[i]
                        == Cell::Mine),
                forall|p: (int, int)|
                    in_grid(w, h, p) && p.1 < y && #[trigger] self.cells@[grid_index(w, p)] != Cell::Mine
                        ==> self.cells@[grid_index(w, p)] == clue_for(
                        mines_around(w, h, self.cells@, p),
                    ),
            decreases self.height - y,
        {
            let mut x: u8 = 0;
            while x < self.width
                invariant
                    self.well_shaped(),
                    w == self.width_view(),
                    h == self.height_view(),
                    self.seed_view() == old(self).seed_view(),
                    self.state_view() == old(self).state_view(),
                    self.height_view() == old(self).height_view(),
                    self.width_view() == old(self).width_view(),
                    self.initial_mines_view() == old(self).initial_mines_view(),
                    self.mines_view() == old(self).mines_view(),
                    self.visible_view() == old(self).visible_view(),
                    cells0 == old(self).cells_view(),
                    y < self.height,
                    x <= self.width,
                    forall|q: (int, int)| in_grid(w, h, q) ==> 0 <= #[trigger] grid_index(w, q) < h * w,
                    forall|i: int|
                        0 <= i < h * w ==> (#[trigger] self.cells@[i] == Cell::Mine) == (cells0[i]
                            == Cell::Mine),
                    forall|p: (int, int)|
                        in_grid(w, h, p) && (p.1 < y || (p.1 == y && p.0 < x))
                            && #[trigger] self.cells@[grid_index(w, p)] != Cell::Mine
                            ==> self.cells@[grid_index(w, p)] == clue_for(
                            mines_around(w, h, self.cells@, p),
                        ),
                decreases self.width - x,
            {
                let ghost before = self.cells@;
                let ghost cur = (x as int, y as int);
                self.generate_cell_clue(x, y);
                proof {
                    let after = self.cells@;
                    assert forall|i: int|
                        0 <= i < h * w implies (#[trigger] after[i] == Cell::Mine) == (before[i]
                            == Cell::Mine) by {
                        if i == grid_index(w, cur) && before[i] != Cell::Mine {
                            assert(clue_for(mines_around(w, h, before, cur)) != Cell::Mine);
                        }
                    }
                    assert forall|p: (int, int)| in_grid(w, h, p) implies mines_around(w, h, after, p)
                        == mines_around(w, h, before, p) by {
                        lemma_same_mines(w, h, after, before, p, 8);
                    }
                    assert forall|p: (int, int)|
                        in_grid(w, h, p) && (p.1 < y || (p.1 == y && p.0 < x + 1))
                            && #[trigger] after[grid_index(w, p)] != Cell::Mine
                            implies after[grid_index(w, p)] == clue_for(
                        mines_around(w, h, after, p),
                    ) by {
                        if p != cur {
                            if grid_index(w, p) == grid_index(w, cur) {
                                lemma_index_injective(w, h, p, cur);
                            }
                            assert(after[grid_index(w, p)] == before[grid_index(w, p)]);
                        }
                    }
                }
                x += 1;
            }
            y += 1;
        }
    }

    /// Places the mines for a first reveal at `(x, y)` and computes every clue.
    fn fill_cells(&mut self, starting_x: u8, starting_y: u8, rng: &mut rand::rngs::StdRng)
        requires
            old(self).wf(),
            old(self).state_view() == State::New,
            old(self).in_bounds((starting_x as int, starting_y as int)),
        ensures
            old(self).mines_view() == old(self).initial_mines_view(),
            final(self).well_shaped(),
            final(self).seed_view() == old(self).seed_view(),
            final(self).state_view() == old(self).state_view(),
            final(self).height_view() == old(self).height_view(),
            final(self).width_view() == old(self).width_view(),
            final(self).initial_mines_view() == old(self).initial_mines_view(),
            final(self).mines_view() == old(self).mines_view(),
            final(self).visible_view() == old(self).visible_view(),
            clues_hold(final(self).width_view(), final(self).height_view(), final(self).cells_view()),
            mines_placed(*old(self), (starting_x as int, starting_y as int), *final(self)),
    {
        let ghost s = (starting_x as int, starting_y as int);
        let starting_positions = self.get_starting_positions(starting_x, starting_y);
        proof {
            lemma_index_bounds(self.width as int, self.height as int, s);
        }
        self.generate_mines(&starting_positions, rng);
        let ghost placed = self.cells@;
        let ghost b1 = *self;
        let ghost w = self.width as int;
        let ghost h = self.height as int;
        self.generate_clues();
        proof {
            lemma_all_index_bounds(w, h);
            lemma_count_same(self.cells@, placed, |c| is_mine_cell(c));
            assert forall|p: (int, int)|
                old(self).in_bounds(p) && in_safe_zone(s, p) implies #[trigger] self.cell_at(p)
                != Cell::Mine by {
                assert(holds_coordinate(starting_positions@, p));
                let j = choose|j: int|
                    0 <= j < starting_positions@.len() && (#[trigger] starting_positions@[j]).x as int
                        == p.0 && starting_positions@[j].y as int == p.1;
                assert(placed[grid_index(w, p)] != Cell::Mine);
            }
            if count_matching(self.cells@, |c| is_mine_cell(c)) < self.initial_mines {
                assert forall|p: (int, int)|
                    old(self).in_bounds(p) && !in_safe_zone(s, p) implies #[trigger] self.cell_at(p)
                    == Cell::Mine by {
                    if holds_coordinate(starting_positions@, p) {
                        let j = choose|j: int|
                            0 <= j < starting_positions@.len() && (#[trigger] starting_positions@[j]).x as int
                                == p.0 && starting_positions@[j].y as int == p.1;
                        assert(in_safe_zone(s, (starting_positions@[j].x as int, starting_positions@[j].y as int)));
                    }
                    assert(b1.cell_at(p) == Cell::Mine);
                }
            }
        }
    }

    /// Uncovers an on-board coordinate, showing its ground truth.
    fn set_cell_visible(&mut self, x: u8, y: u8)
        requires
            old(self).wf(),
            old(self).state_view() != State::New,
            old(self).in_bounds((x as int, y as int)),
        ensures
            final(self).wf(),
            final(self).visible_view() == old(self).visible_view().update(
                grid_index(old(self).width_view(), (x as int, y as int)),
                VisibleCell::Uncovered(old(self).cell_at((x as int, y as int))),
            ),
            final(self).seed_view() == old(self).seed_view(),
            final(self).state_view() == old(self).state_view(),
            final(self).height_view() == old(self).height_view(),
            final(self).width_view() == old(self).width_view(),
            final(self).initial_mines_view() == old(self).initial_mines_view(),
            final(self).mines_view() == old(self).mines_view(),
            final(self).cells_view() == old(self).cells_view(),
    {
        let i = self.index_of(x, y);
        let c = self.cells[i];
        proof {
            lemma_count_update(self.visible_cells@, |v| is_flagged(v), i as int, VisibleCell::Uncovered(c));
        }
        self.visible_cells.set(i, VisibleCell::Uncovered(c));
    }

    /// Ends the game after a reveal at `(x, y)`: lost on a mine, won once
    /// every other cell is uncovered.
    fn check_for_end_of_game(&mut self, x: u8, y: u8)
        requires
            old(self).wf(),
            old(self).state_view() != State::New,
            old(self).in_bounds((x as int, y as int)),
        ensures
            final(self).wf(),
            final(self).state_view() == if old(self).cell_at((x as int, y as int)) == Cell::Mine {
                State::Finished(FinishedState::Lost)
            } else if all_safe_uncovered(old(self).cells_view(), old(self).visible_view()) {
                State::Finished(FinishedState::Won)
            } else {
                old(self).state_view()
            },
            final(self).seed_view() == old(self).seed_view(),
            final(self).height_view() == old(self).height_view(),
            final(self).width_view() == old(self).width_view(),
            final(self).initial_mines_view() == old(self).initial_mines_view(),
            final(self).mines_view() == old(self).mines_view(),
            final(self).cells_view() == old(self).cells_view(),
            final(self).visible_view() == old(self).visible_view(),
    {
        if self.get_cell(x, y) == Cell::Mine {
            self.state = State::Finished(FinishedState::Lost);
        } else if self.is_everything_uncovered() {
            self.state = State::Finished(FinishedState::Won);
        }
    }

    /// Reveals `(x, y)`. On a new game this first places the mines away
    /// from `(x, y)` and its neighbours and starts play. A finished game, or
    /// a flagged coordinate, is left as it is. An `Empty` coordinate floods
    /// its covered `Empty` region and that region's border; a mine loses the
    /// game, and uncovering the last safe coordinate wins it.
    pub fn uncover_cell(&mut self, x: u8, y: u8)
        requires
            old(self).wf(),
            old(self).in_bounds((x as int, y as int)),
        ensures
            final(self).wf(),
            final(self).seed_view() == old(self).seed_view(),
            final(self).height_view() == old(self).height_view(),
            final(self).width_view() == old(self).width_view(),
            final(self).initial_mines_view() == old(self).initial_mines_view(),
            final(self).mines_view() == old(self).mines_view(),
            old(self).state_view() is Finished || (old(self).state_view() == State::Playing
                && old(self).visible_at((x as int, y as int)) == VisibleCell::Flagged)
                ==> *final(self) == *old(self),
            old(self).state_view() == State::Playing && old(self).visible_at((x as int, y as int))
                != VisibleCell::Flagged ==> final(self).cells_view() == old(self).cells_view()
                && reveal_outcome(old(self).visible_view(), (x as int, y as int), *final(self)),
            old(self).state_view() == State::New && final(self).state_view() != State::New
                ==> mines_placed(*old(self), (x as int, y as int), *final(self)) && reveal_outcome(
                old(self).visible_view(),
                (x as int, y as int),
                *final(self),
            ),
            old(self).state_view() == State::New && final(self).state_view() == State::New
                ==> *final(self) == *old(self) && old(self).seed_view() is None,
            old(self).state_view() == State::New && old(self).seed_view() is Some
                ==> final(self).state_view() != State::New,
    {
        let ghost mut b_fill = *self;
        if self.state == State::New {
            // Without a seed the layout comes from operating-system entropy;
            // where there is none, the game stays new.
            let rng = match self.seed {
                Some(seed) => Some(seeded_rng(seed)),
                None => entropy_rng(),
            };
            let mut rng = match rng {
                Some(rng) => rng,
                None => {
                    return;
                },
            };
            self.fill_cells(x, y, &mut rng);
            proof {
                b_fill = *self;
            }
            self.state = State::Playing;
            proof {
                lemma_no_flags(self.visible_cells@);
            }
        } else if self.state != State::Playing || self.get_visible_cell(x, y) == VisibleCell::Flagged {
            return;
        }
        let ghost vis0 = self.visible_cells@;
        let ghost w = self.width as int;
        let ghost h = self.height as int;
        let ghost s = (x as int, y as int);
        self.set_cell_visible(x, y);
        if self.get_cell(x, y) == Cell::Empty {
            self.uncover_empty_cells(x, y, Ghost(vis0));
        } else {
            proof {
                lemma_all_index_bounds(w, h);
                assert forall|q: (int, int)| self.in_bounds(q) implies #[trigger] self.visible_at(q)
                    == if revealed_by(w, h, self.cells@, vis0, s, q) {
                    VisibleCell::Uncovered(self.cell_at(q))
                } else {
                    vis0[grid_index(w, q)]
                } by {
                    if revealed_by(w, h, self.cells@, vis0, s, q) && q != s {
                        let e = choose|e: (int, int)|
                            #[trigger] expands(w, h, self.cells@, vis0, s, e) && adjacent(e, q);
                        let path = choose|path: Seq<(int, int)>|
                            is_fill_path(w, h, self.cells@, vis0, path) && path[0] == s && path.last() == e;
                        assert(self.cells@[grid_index(w, path[0])] == Cell::Empty);
                    }
                    if q != s && grid_index(w, q) == grid_index(w, s) {
                        lemma_index_injective(w, h, q, s);
                    }
                }
            }
        }
        let ghost b2 = *self;
        self.check_for_end_of_game(x, y);
        proof {
            assert forall|q: (int, int)| self.in_bounds(q) implies #[trigger] self.visible_at(q)
                == if revealed_by(w, h, self.cells@, vis0, s, q) {
                VisibleCell::Uncovered(self.cell_at(q))
            } else {
                vis0[grid_index(w, q)]
            } by {
                assert(b2.visible_at(q) == self.visible_at(q));
            }
            if old(self).state_view() == State::New {
                assert(self.cells@ == b_fill.cells_view());
                assert forall|p: (int, int)| old(self).in_bounds(p) implies #[trigger] self.cell_at(p)
                    == b_fill.cell_at(p) by {}
                assert(mines_placed(*old(self), s, *self));
            }
        }
    }

    /// Starts the game over with the same size, mine count and seed.
    pub fn reset(&mut self)
        ensures
            final(self).is_fresh(
                old(self).height_view(),
                old(self).width_view(),
                old(self).initial_mines_view(),
            ),
            final(self).seed_view() == old(self).seed_view(),
    {
        let seed = self.seed;
        *self = Self::new(self.height, self.width, self.initial_mines);
        self.seed = seed;
    }

    /// Fixes the seed of the mine layout.
    pub(crate) fn set_seed(&mut self, seed: Option<u64>)
        ensures
            final(self).same_game(old(self)),
            final(self).seed_view() == seed,
            old(self).wf() ==> final(self).wf(),
    {
        self.seed = seed;
    }

    /// An independent copy of this board.
    pub(crate) fn copy(&self) -> (r: Board)
        ensures
            r.same_game(self),
            r.seed_view() == self.seed_view(),
    {
        Board {
            seed: self.seed,
            state: self.state,
            height: self.height,
            width: self.width,
            initial_mines: self.initial_mines,
            mines: self.mines,
            visible_cells: copy_vec(&self.visible_cells),
            cells: copy_vec(&self.cells),
        }
    }

    /// Captures everything the board holds but its seed.
    pub fn save_memento(&self) -> (r: Box<BoardMemento>)
        requires
            self.wf(),
        ensures
            captures(*r, *self),
    {
        Box::new(
            BoardMemento::from_parts(
                self.state,
                self.height,
                self.width,
                self.initial_mines,
                self.mines,
                copy_vec(&self.visible_cells),
                copy_vec(&self.cells),
            ),
        )
    }

    /// Replaces everything the board holds but its seed with the memento.
    pub fn restore_from_memento(&mut self, memento: Box<BoardMemento>)
        ensures
            final(self).wf(),
            captures(*memento, *final(self)),
            final(self).seed_view() == old(self).seed_view(),
    {
        let (state, height, width, initial_mines, mines, visible_cells, cells) = memento.into_parts();
        self.state = state;
        self.height = height;
        self.width = width;
        self.initial_mines = initial_mines;
        self.mines = mines;
        self.visible_cells = visible_cells;
        self.cells = cells;
    }

    pub fn get_state(&self) -> (r: &State)
        ensures
            *r == self.state_view(),
    {
        &self.state
    }

    /// Flags the player may still place.
    pub fn get_mines_number(&self) -> (r: u8)
        ensures
            r == self.mines_view(),
    {
        self.mines
    }

    pub fn get_height(&self) -> (r: u8)
        ensures
            r == self.height_view(),
    {
        self.height
    }

    pub fn get_width(&self) -> (r: u8)
        ensures
            r == self.width_view(),
    {
        self.width
    }
}

/// `m` holds exactly what board `b` holds, its seed aside.
pub open spec fn captures(m: BoardMemento, b: Board) -> bool {
    &&& m.state_view() == b.state_view()
    &&& m.height_view() == b.height_view()
    &&& m.width_view() == b.width_view()
    &&& m.initial_mines_view() == b.initial_mines_view()
    &&& m.mines_view() == b.mines_view()
    &&& m.cells_view() == b.cells_view()
    &&& m.visible_view() == b.visible_view()
}

impl Originator<BoardMemento> for Board {
    open spec fn originator_wf(&self) -> bool {
        self.wf()
    }

    open spec fn captured_in(&self, m: BoardMemento) -> bool {
        captures(m, *self)
    }

    fn save_memento(&self) -> Box<BoardMemento> {
        Board::save_memento(self)
    }

    fn restore_from_memento(&mut self, memento: Box<BoardMemento>) {
        Board::restore_from_memento(self, memento)
    }
}

/// Well-formedness of a game: grids of `height * width` entries, every
/// uncovered coordinate shows its ground truth, a new game has neither mines
/// nor reveals nor flags, once mines are placed every other cell holds its
/// clue, and the remaining flag budget plus the placed flags never exceed
/// the configured mine count.
pub open spec fn game_wf(
    state: State,
    height: int,
    width: int,
    initial_mines: int,
    mines: int,
    cells: Seq<Cell>,
    vis: Seq<VisibleCell>,
) -> bool {
    &&& 0 <= height <= 255
    &&& 0 <= width <= 255
    &&& 0 <= mines <= 255
    &&& 0 <= initial_mines <= 255
    &&& cells.len() == height * width
    &&& vis.len() == height * width
    &&& forall|i: int|
        0 <= i < height * width && (#[trigger] vis[i]) is Uncovered ==> vis[i]
            == VisibleCell::Uncovered(cells[i])
    &&& state == State::New ==> mines == initial_mines
    &&& state == State::New ==> forall|i: int|
        0 <= i < height * width ==> #[trigger] cells[i] == Cell::Empty && vis[i]
            == VisibleCell::Covered
    &&& state != State::New ==> clues_hold(width, height, cells)
    &&& mines + count_matching(vis, |v| is_flagged(v)) <= initial_mines
}

/// What the first reveal at `s` did to the ground truth: the safe zone of
/// `s` holds no mine, and either every configured mine was placed or every
/// coordinate outside the safe zone is a mine.
pub open spec fn mines_placed(before: Board, s: (int, int), after: Board) -> bool {
    let mines = count_matching(after.cells_view(), |c| is_mine_cell(c));
    &&& forall|p: (int, int)|
        before.in_bounds(p) && in_safe_zone(s, p) ==> #[trigger] after.cell_at(p) != Cell::Mine
    &&& mines <= before.initial_mines_view()
    &&& mines < before.initial_mines_view() ==> forall|p: (int, int)|
        before.in_bounds(p) && !in_safe_zone(s, p) ==> #[trigger] after.cell_at(p) == Cell::Mine
}

/// The board after a reveal at `s` over the earlier view `vis0`: exactly
/// the coordinates that the reveal reaches are uncovered, the game is lost
/// on a mine, won once every safe coordinate is uncovered, and goes on
/// otherwise.
pub open spec fn reveal_outcome(vis0: Seq<VisibleCell>, s: (int, int), after: Board) -> bool {
    let w = after.width_view();
    let h = after.height_view();
    &&& forall|q: (int, int)|
        after.in_bounds(q) ==> #[trigger] after.visible_at(q) == if revealed_by(
            w,
            h,
            after.cells_view(),
            vis0,
            s,
            q,
        ) {
            VisibleCell::Uncovered(after.cell_at(q))
        } else {
            vis0[grid_index(w, q)]
        }
    &&& after.state_view() == if after.cell_at(s) == Cell::Mine {
        State::Finished(FinishedState::Lost)
    } else if all_safe_uncovered(after.cells_view(), after.visible_view()) {
        State::Finished(FinishedState::Won)
    } else {
        State::Playing
    }
}

/// The flag toggle of `flag_cell` on coordinate `p`, from `before` to `after`.
pub open spec fn flag_step(before: Board, p: (int, int), after: Board) -> bool {
    let i = grid_index(before.width_view(), p);
    let v = before.visible_view()[i];
    &&& after.seed_view() == before.seed_view()
    &&& after.state_view() == before.state_view()
    &&& after.height_view() == before.height_view()
    &&& after.width_view() == before.width_view()
    &&& after.initial_mines_view() == before.initial_mines_view()
    &&& after.cells_view() == before.cells_view()
    &&& if before.state_view() == State::Playing && v == VisibleCell::Covered
        && before.mines_view() > 0 {
        &&& after.visible_view() == before.visible_view().update(i, VisibleCell::Flagged)
        &&& after.mines_view() == before.mines_view() - 1
    } else if before.state_view() == State::Playing && v == VisibleCell::Flagged {
        &&& after.visible_view() == before.visible_view().update(i, VisibleCell::Covered)
        &&& after.mines_view() == before.mines_view() + 1
    } else {
        &&& after.visible_view() == before.visible_view()
        &&& after.mines_view() == before.mines_view()
    }
}

/// The flood fill never uncovers a mine: on a board whose clues hold, every
/// coordinate that a reveal at `s` reaches, `s` aside, is safe.
pub proof fn lemma_fill_uncovers_no_mine(
    b: Board,
    vis0: Seq<VisibleCell>,
    s: (int, int),
    q: (int, int),
)
    requires
        b.wf(),
        b.state_view() != State::New,
        b.in_bounds(q),
        q != s,
        revealed_by(b.width_view(), b.height_view(), b.cells_view(), vis0, s, q),
    ensures
        b.cell_at(q) != Cell::Mine,
{
    let w = b.width_view();
    let h = b.height_view();
    let cells = b.cells_view();
    let e = choose|e: (int, int)| #[trigger] expands(w, h, cells, vis0, s, e) && adjacent(e, q);
    let path = choose|path: Seq<(int, int)>|
        is_fill_path(w, h, cells, vis0, path) && path[0] == s && path.last() == e;
    assert(in_grid(w, h, path[path.len() - 1]));
    assert(cells[grid_index(w, e)] == Cell::Empty);
    assert(clue_for(mines_around(w, h, cells, e)) == Cell::Empty);
    lemma_no_mines_around(w, h, cells, e, 8);
    lemma_offsets_cover_neighbours(e, q);
    let k = choose|k: int| 0 <= k < 8 && q == (e.0 + offset_x(k), e.1 + offset_y(k));
    assert(!mine_at(w, h, cells, (e.0 + offset_x(k), e.1 + offset_y(k))));
}

/// Toggling the flag twice on one coordinate of a game in play gives the
/// board back, when the first toggle changed something: a flag placed is
/// taken off again, a flag taken off is placed again.
pub proof fn lemma_flag_toggle_twice(b0: Board, p: (int, int), b1: Board, b2: Board)
    requires
        b0.wf(),
        b0.in_bounds(p),
        b0.state_view() == State::Playing,
        b0.visible_at(p) == VisibleCell::Flagged || (b0.visible_at(p) == VisibleCell::Covered
            && b0.mines_view() > 0),
        flag_step(b0, p, b1),
        flag_step(b1, p, b2),
    ensures
        b2.same_game(&b0),
        b2.seed_view() == b0.seed_view(),
{
    let i = grid_index(b0.width_view(), p);
    lemma_index_bounds(b0.width_view(), b0.height_view(), p);
    assert(b2.visible_view() =~= b0.visible_view());
}

/// Flagging never touches an uncovered coordinate.
pub proof fn lemma_flag_keeps_uncovered(b0: Board, p: (int, int), b1: Board)
    requires
        b0.in_bounds(p),
        b0.visible_at(p) is Uncovered,
        flag_step(b0, p, b1),
    ensures
        b1.same_game(&b0),
{
}

/// A board that was reset and a board built new with the same size and
/// mine count cannot be told apart.
pub proof fn lemma_reset_matches_new(reset: Board, built: Board, height: int, width: int, mines: int)
    requires
        reset.is_fresh(height, width, mines),
        built.is_fresh(height, width, mines),
    ensures
        reset.same_game(&built),
{
}

/// Restoring a board from a snapshot of board `before` makes it
/// indistinguishable from `before`, whatever happened in between.
pub proof fn lemma_snapshot_round_trip(before: Board, m: BoardMemento, restored: Board)
    requires
        captures(m, before),
        captures(m, restored),
    ensures
        restored.same_game(&before),
{
}

/// Draws in a row that may miss before mine placement falls back to a scan.
pub const MAX_DRAWS: u32 = 1000;

/// Whether `positions` holds `(x, y)`.
fn contains_position(positions: &Vec<Position>, x: u8, y: u8) -> (r: bool)
    ensures
        r == holds_coordinate(positions@, (x as int, y as int)),
{
    let mut j: usize = 0;
    while j < positions.len()
        invariant
            j <= positions.len(),
            forall|jj: int|
                0 <= jj < j ==> !((#[trigger] positions@[jj]).x == x as i16 && positions@[jj].y
                    == y as i16),
        decreases positions.len() - j,
    {
        if positions[j].x == x as i16 && positions[j].y == y as i16 {
            return true;
        }
        j += 1;
    }
    false
}

proof fn lemma_no_mines(s: Seq<Cell>)
    requires
        forall|i: int| 0 <= i < s.len() ==> s[i] == Cell::Empty,
    ensures
        count_matching(s, |c| is_mine_cell(c)) == 0,
    decreases s.len(),
{
    if s.len() > 0 {
        lemma_no_mines(s.drop_last());
    }
}

proof fn lemma_no_flags(s: Seq<VisibleCell>)
    requires
        forall|i: int| 0 <= i < s.len() ==> s[i] == VisibleCell::Covered,
    ensures
        count_matching(s, |v| is_flagged(v)) == 0,
    decreases s.len(),
{
    if s.len() > 0 {
        lemma_no_flags(s.drop_last());
    }
}

} // verus!
