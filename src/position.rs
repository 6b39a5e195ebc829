use vstd::prelude::*;

verus! {

/// A signed grid coordinate, wide enough to hold every `u8` coordinate
/// plus or minus one, so that off-board neighbours can be formed and rejected.
#[derive(Debug, Clone, Copy, PartialEq, Eq, Structural)]
pub struct Position {
    pub x: i16,
    pub y: i16,
}

/// Horizontal part of the `k`-th neighbour offset, in the fixed order
/// NW, N, NE, E, SE, S, SW, W.
pub open spec fn offset_x(k: int) -> int {
    if k == 0 || k == 6 || k == 7 {
        -1
    } else if k == 1 || k == 5 {
        0
    } else {
        1
    }
}

/// Vertical part of the `k`-th neighbour offset.
pub open spec fn offset_y(k: int) -> int {
    if k == 0 || k == 1 || k == 2 {
        -1
    } else if k == 3 || k == 7 {
        0
    } else {
        1
    }
}

/// Two coordinates are neighbours in the Moore sense: distinct, and at most
/// one step apart on each axis.
pub open spec fn adjacent(a: (int, int), b: (int, int)) -> bool {
    &&& a != b
    &&& -1 <= b.0 - a.0 <= 1
    &&& -1 <= b.1 - a.1 <= 1
}

/// Some item of `ps` is the coordinate `p`.
pub open spec fn holds_coordinate(ps: Seq<Position>, p: (int, int)) -> bool {
    exists|j: int| 0 <= j < ps.len() && (#[trigger] ps[j]).x as int == p.0 && ps[j].y as int == p.1
}

/// The `k`-th of the eight neighbour offsets.
pub fn adjacent_offset(k: usize) -> (p: Position)
    requires
        k < 8,
    ensures
        p.x == offset_x(k as int),
        p.y == offset_y(k as int),
{
    match k {
        0 => Position { x: -1, y: -1 },
        1 => Position { x: 0, y: -1 },
        2 => Position { x: 1, y: -1 },
        3 => Position { x: 1, y: 0 },
        4 => Position { x: 1, y: 1 },
        5 => Position { x: 0, y: 1 },
        6 => Position { x: -1, y: 1 },
        _ => Position { x: -1, y: 0 },
    }
}

/// The eight offsets are nonzero and pairwise different.
pub proof fn lemma_offsets_distinct(a: int, b: int)
    requires
        0 <= a < 8,
        0 <= b < 8,
    ensures
        (offset_x(a), offset_y(a)) != (0int, 0int),
        a != b ==> (offset_x(a), offset_y(a)) != (offset_x(b), offset_y(b)),
{
}

/// The eight offsets are exactly the steps to the Moore neighbours.
pub proof fn lemma_offsets_cover_neighbours(a: (int, int), b: (int, int))
    ensures
        adjacent(a, b) <==> exists|k: int|
            0 <= k < 8 && b == (a.0 + offset_x(k), a.1 + offset_y(k)),
{
    if adjacent(a, b) {
        let dx = b.0 - a.0;
        let dy = b.1 - a.1;
        let k: int = if dx == -1 && dy == -1 {
            0
        } else if dx == 0 && dy == -1 {
            1
        } else if dx == 1 && dy == -1 {
            2
        } else if dx == 1 && dy == 0 {
            3
        } else if dx == 1 && dy == 1 {
            4
        } else if dx == 0 && dy == 1 {
            5
        } else if dx == -1 && dy == 1 {
            6
        } else {
            7
        };
        assert(b == (a.0 + offset_x(k), a.1 + offset_y(k)));
    }
}

} // verus!
