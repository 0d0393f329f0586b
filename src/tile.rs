use vstd::prelude::*;

verus! {

/// One cell of the board, addressed by its column and row in tile units.
#[derive(Clone, Copy, Debug)]
pub struct MineFieldTile {
    pub coords: (i32, i32),
    pub revealed: bool,
    pub has_mine: bool,
    pub flagged: bool,
    pub adjacent_mines: u8,
    pub index: usize,
}

/// How alarming a tile's neighbour count is, for whoever draws it.
#[derive(Clone, Copy, Debug, PartialEq, Eq, Structural)]
pub enum DangerLevel {
    Low,
    Medium,
    High,
}

pub open spec fn danger_level_of(num_mines: int) -> DangerLevel {
    if num_mines == 0 || num_mines == 1 {
        DangerLevel::Low
    } else if num_mines == 2 {
        DangerLevel::Medium
    } else {
        DangerLevel::High
    }
}

/// Danger level of a tile with `num_mines` mined neighbours.
pub fn danger_level(num_mines: i32) -> (r: DangerLevel)
    ensures
        r == danger_level_of(num_mines as int),
{
    if num_mines == 0 || num_mines == 1 {
        DangerLevel::Low
    } else if num_mines == 2 {
        DangerLevel::Medium
    } else {
        DangerLevel::High
    }
}

pub open spec fn in_bounds(w: int, h: int, x: int, y: int) -> bool {
    0 <= x < w && 0 <= y < h
}

/// Row-major index of the tile at column `x`, row `y`.
pub open spec fn index_of(w: int, x: int, y: int) -> int {
    y * w + x
}

/// Column offset of the `k`-th neighbour, clockwise from north-west
/// (rows grow downwards).
pub open spec fn offset_x(k: int) -> int {
    if k == 0 || k == 6 || k == 7 {
        -1
    } else if k == 1 || k == 5 {
        0
    } else {
        1
    }
}

/// Row offset of the `k`-th neighbour, clockwise from north-west.
pub open spec fn offset_y(k: int) -> int {
    if k == 0 || k == 1 || k == 2 {
        -1
    } else if k == 3 || k == 7 {
        0
    } else {
        1
    }
}

/// The tiles among the first `k` neighbour directions of `(x, y)` that lie
/// on a `w` by `h` board, in direction order.
pub open spec fn neighbor_tiles_upto(
    tiles: Seq<MineFieldTile>,
    w: int,
    h: int,
    x: int,
    y: int,
    k: nat,
) -> Seq<MineFieldTile>
    decreases k,
{
    if k == 0 {
        seq![]
    } else {
        let prev = neighbor_tiles_upto(tiles, w, h, x, y, (k - 1) as nat);
        let nx = x + offset_x(k - 1);
        let ny = y + offset_y(k - 1);
        if in_bounds(w, h, nx, ny) {
            prev.push(tiles[index_of(w, nx, ny)])
        } else {
            prev
        }
    }
}

/// All neighbours of `(x, y)`: 3 in a corner, 5 on an edge, 8 inside.
pub open spec fn neighbor_tiles(tiles: Seq<MineFieldTile>, w: int, h: int, x: int, y: int) -> Seq<
    MineFieldTile,
> {
    neighbor_tiles_upto(tiles, w, h, x, y, 8)
}

/// Number of tiles in `s` that hold a mine.
pub open spec fn count_mines(s: Seq<MineFieldTile>) -> nat
    decreases s.len(),
{
    if s.len() == 0 {
        0
    } else {
        count_mines(s.drop_last()) + if s.last().has_mine {
            1nat
        } else {
            0nat
        }
    }
}

/// Number of tiles in `s` that hold no mine.
pub open spec fn count_safe(s: Seq<MineFieldTile>) -> nat
    decreases s.len(),
{
    if s.len() == 0 {
        0
    } else {
        count_safe(s.drop_last()) + if !s.last().has_mine {
            1nat
        } else {
            0nat
        }
    }
}

pub open spec fn safe_hidden(t: MineFieldTile) -> bool {
    !t.has_mine && !t.revealed
}

/// Number of tiles in `s` that hold no mine and are not yet revealed.
pub open spec fn count_safe_hidden(s: Seq<MineFieldTile>) -> nat
    decreases s.len(),
{
    if s.len() == 0 {
        0
    } else {
        count_safe_hidden(s.drop_last()) + if safe_hidden(s.last()) {
            1nat
        } else {
            0nat
        }
    }
}

/// Number of mined neighbours of `(x, y)`.
pub open spec fn adjacent_count(tiles: Seq<MineFieldTile>, w: int, h: int, x: int, y: int) -> nat {
    count_mines(neighbor_tiles(tiles, w, h, x, y))
}

/// `a` and `b` have the same length and the same mines.
pub open spec fn same_mines(a: Seq<MineFieldTile>, b: Seq<MineFieldTile>) -> bool {
    a.len() == b.len() && forall|j: int| 0 <= j < a.len() ==> a[j].has_mine == b[j].has_mine
}

/// Replacing one tile changes the safe-hidden count by that tile's share only.
pub(crate) proof fn lemma_count_safe_hidden_update(s: Seq<MineFieldTile>, i: int, t: MineFieldTile)
    requires
        0 <= i < s.len(),
    ensures
        count_safe_hidden(s.update(i, t)) + (if safe_hidden(s[i]) {
            1int
        } else {
            0int
        }) == count_safe_hidden(s) + (if safe_hidden(t) {
            1int
        } else {
            0int
        }),
    decreases s.len(),
{
    let u = s.update(i, t);
    if i == s.len() - 1 {
        assert(u.drop_last() =~= s.drop_last());
    } else {
        assert(u.drop_last() =~= s.drop_last().update(i, t));
        lemma_count_safe_hidden_update(s.drop_last(), i, t);
    }
}

proof fn lemma_count_mines_push(s: Seq<MineFieldTile>, t: MineFieldTile)
    ensures
        count_mines(s.push(t)) == count_mines(s) + if t.has_mine {
            1nat
        } else {
            0nat
        },
{
    assert(s.push(t).drop_last() =~= s);
}

proof fn lemma_neighbor_mines_frame_upto(
    a: Seq<MineFieldTile>,
    b: Seq<MineFieldTile>,
    w: int,
    h: int,
    x: int,
    y: int,
    k: nat,
)
    requires
        same_mines(a, b),
        w > 0,
        a.len() == w * h,
    ensures
        count_mines(neighbor_tiles_upto(a, w, h, x, y, k)) == count_mines(
            neighbor_tiles_upto(b, w, h, x, y, k),
        ),
    decreases k,
{
    if k > 0 {
        lemma_neighbor_mines_frame_upto(a, b, w, h, x, y, (k - 1) as nat);
        let nx = x + offset_x(k - 1);
        let ny = y + offset_y(k - 1);
        if in_bounds(w, h, nx, ny) {
            lemma_index_in_range(w, h, nx, ny);
            lemma_count_mines_push(
                neighbor_tiles_upto(a, w, h, x, y, (k - 1) as nat),
                a[index_of(w, nx, ny)],
            );
            lemma_count_mines_push(
                neighbor_tiles_upto(b, w, h, x, y, (k - 1) as nat),
                b[index_of(w, nx, ny)],
            );
        }
    }
}

/// Neighbour mine counts depend on where the mines are, and on nothing else.
pub(crate) proof fn lemma_adjacent_count_frame(a: Seq<MineFieldTile>, b: Seq<MineFieldTile>, w: int, h: int)
    requires
        same_mines(a, b),
        w > 0,
        a.len() == w * h,
    ensures
        forall|x: int, y: int| adjacent_count(a, w, h, x, y) == adjacent_count(b, w, h, x, y),
{
    assert forall|x: int, y: int| adjacent_count(a, w, h, x, y) == adjacent_count(b, w, h, x, y) by {
        lemma_neighbor_mines_frame_upto(a, b, w, h, x, y, 8);
    }
}

pub(crate) proof fn lemma_index_in_range(w: int, h: int, x: int, y: int)
    requires
        in_bounds(w, h, x, y),
    ensures
        0 <= index_of(w, x, y) < w * h,
{
    assert(0 <= y * w + x < w * h) by (nonlinear_arith)
        requires
            0 <= x < w,
            0 <= y < h,
    ;
}

pub(crate) proof fn lemma_index_unique(w: int, x1: int, y1: int, x2: int, y2: int)
    requires
        0 <= x1 < w,
        0 <= x2 < w,
        index_of(w, x1, y1) == index_of(w, x2, y2),
    ensures
        x1 == x2,
        y1 == y2,
{
    if y1 < y2 {
        assert(y1 * w + w <= y2 * w) by (nonlinear_arith)
            requires
                y1 < y2,
                w > 0,
        ;
    } else if y2 < y1 {
        assert(y2 * w + w <= y1 * w) by (nonlinear_arith)
            requires
                y2 < y1,
                w > 0,
        ;
    }
}

} // verus!
