use vstd::prelude::*;

use crate::tile::{
    adjacent_count, count_mines, count_safe, count_safe_hidden, in_bounds, index_of,
    lemma_adjacent_count_frame, lemma_count_safe_hidden_update, lemma_index_in_range,
    lemma_index_unique, neighbor_tiles, neighbor_tiles_upto, offset_x, offset_y, safe_hidden,
    same_mines, MineFieldTile,
};

verus! {

/// A tile is given a mine when its roll, drawn from `0..=MINE_CHANCE`, equals this.
pub const MINE_ROLL: i32 = 1;

/// Upper end (inclusive) of the roll drawn for each tile at mine placement.
pub const MINE_CHANCE: i32 = 5;

/// Most tiles that one flood reveal uncovers.
pub const MAX_FLOOD_TILES: usize = 100;

/// What mine placement produced.
#[derive(Clone, Copy, Debug, PartialEq, Eq, Structural)]
pub struct Placement {
    pub mined_count: usize,
    pub clear_target: usize,
}

/// What a reveal request did.
#[derive(Clone, Copy, Debug, PartialEq, Eq, Structural)]
pub enum RevealOutcome {
    /// A mine-free tile was revealed (and, with no mined neighbour, flooded from).
    Safe,
    /// A mined tile was revealed.
    Mine,
    /// The position is off the board; nothing changed.
    OutOfBounds,
    /// The tile was already revealed; nothing changed.
    AlreadyRevealed,
    /// The tile is flagged; nothing changed.
    Flagged,
}

/// `tiles` after a flag toggle at `(x, y)`: a hidden tile's flag flips;
/// anything else stays as it is.
pub open spec fn flag_toggled(tiles: Seq<MineFieldTile>, w: int, h: int, x: int, y: int) -> Seq<
    MineFieldTile,
> {
    let i = index_of(w, x, y);
    if in_bounds(w, h, x, y) && !tiles[i].revealed {
        tiles.update(i, MineFieldTile { flagged: !tiles[i].flagged, ..tiles[i] })
    } else {
        tiles
    }
}

/// Toggling the flag at the same place twice gives back the board as it was,
/// and toggling it on a revealed tile changes nothing.
pub proof fn lemma_toggle_flag_twice(tiles: Seq<MineFieldTile>, w: int, h: int, x: int, y: int)
    requires
        tile_shape_ok(tiles, w, h),
    ensures
        flag_toggled(flag_toggled(tiles, w, h, x, y), w, h, x, y) == tiles,
        in_bounds(w, h, x, y) && tiles[index_of(w, x, y)].revealed ==> flag_toggled(
            tiles,
            w,
            h,
            x,
            y,
        ) == tiles,
{
    if in_bounds(w, h, x, y) {
        lemma_index_in_range(w, h, x, y);
        let i = index_of(w, x, y);
        if !tiles[i].revealed {
            let once = flag_toggled(tiles, w, h, x, y);
            assert(once[i].flagged == !tiles[i].flagged);
            assert(flag_toggled(once, w, h, x, y) =~= tiles);
        }
    }
}

/// `tiles` with tile `i` revealed and unflagged.
pub open spec fn opened(tiles: Seq<MineFieldTile>, i: int) -> Seq<MineFieldTile> {
    tiles.update(i, MineFieldTile { revealed: true, flagged: false, ..tiles[i] })
}

/// Revealing one hidden mine-free tile lowers the number of hidden mine-free
/// tiles by exactly one; revealing any other tile leaves it as it was.
pub proof fn lemma_reveal_counts_down(tiles: Seq<MineFieldTile>, i: int)
    requires
        0 <= i < tiles.len(),
    ensures
        safe_hidden(tiles[i]) ==> count_safe_hidden(opened(tiles, i)) + 1 == count_safe_hidden(tiles),
        !safe_hidden(tiles[i]) ==> count_safe_hidden(opened(tiles, i)) == count_safe_hidden(tiles),
{
    lemma_count_safe_hidden_update(tiles, i, MineFieldTile { revealed: true, flagged: false, ..tiles[i] });
}

/// The board: a dense row-major grid of tiles plus the count of mine-free
/// tiles still hidden.
pub struct MineField {
    size: (i32, i32),
    tiles: Vec<MineFieldTile>,
    required_num_to_clear: usize,
    mines_placed: bool,
}

/// Tile `i` of a `w` by `h` board sits where its row-major index says,
/// knows that index, and is not both revealed and flagged.
pub open spec fn tile_shape_ok(tiles: Seq<MineFieldTile>, w: int, h: int) -> bool {
    &&& w > 0
    &&& h > 0
    &&& tiles.len() == w * h
    &&& forall|i: int|
        0 <= i < tiles.len() ==> {
            &&& 0 <= (#[trigger] tiles[i]).coords.0 < w
            &&& 0 <= tiles[i].coords.1 < h
            &&& index_of(w, tiles[i].coords.0 as int, tiles[i].coords.1 as int) == i
            &&& tiles[i].index == i
            &&& tiles[i].revealed ==> !tiles[i].flagged
        }
}

/// Every tile's neighbour count is exact.
pub open spec fn counts_exact(tiles: Seq<MineFieldTile>, w: int, h: int) -> bool {
    forall|i: int|
        0 <= i < tiles.len() ==> #[trigger] tiles[i].adjacent_mines as int == adjacent_count(
            tiles,
            w,
            h,
            tiles[i].coords.0 as int,
            tiles[i].coords.1 as int,
        )
}

/// `tiles` with every neighbour count recomputed from the mines.
pub open spec fn recounted(tiles: Seq<MineFieldTile>, w: int, h: int) -> Seq<MineFieldTile> {
    Seq::new(
        tiles.len(),
        |i: int|
            MineFieldTile {
                adjacent_mines: adjacent_count(
                    tiles,
                    w,
                    h,
                    tiles[i].coords.0 as int,
                    tiles[i].coords.1 as int,
                ) as u8,
                ..tiles[i]
            },
    )
}

/// `tiles` with a mine on each hidden tile whose roll is `MINE_ROLL`, and none elsewhere.
pub open spec fn mines_laid(tiles: Seq<MineFieldTile>, rolls: Seq<i32>) -> Seq<MineFieldTile> {
    Seq::new(
        tiles.len(),
        |i: int| MineFieldTile { has_mine: !tiles[i].revealed && rolls[i] == MINE_ROLL, ..tiles[i] },
    )
}

/// `(x2, y2)` is one of the eight tiles around `(x1, y1)`.
pub open spec fn touching(x1: int, y1: int, x2: int, y2: int) -> bool {
    (x1, y1) != (x2, y2) && -1 <= x2 - x1 <= 1 && -1 <= y2 - y1 <= 1
}

/// Tile `j` is as it was, or was hidden and mine-free and is now revealed and unflagged.
pub open spec fn flood_changed(o: Seq<MineFieldTile>, c: Seq<MineFieldTile>, j: int) -> bool {
    c[j] == o[j] || (safe_hidden(o[j]) && c[j] == MineFieldTile {
        revealed: true,
        flagged: false,
        ..o[j]
    })
}

pub open spec fn newly_revealed(o: Seq<MineFieldTile>, c: Seq<MineFieldTile>, j: int) -> bool {
    !o[j].revealed && c[j].revealed
}

/// The `m`-th tile of `out` touches `(x, y)`, or an earlier tile of `out`
/// that has no mined neighbour.
pub open spec fn grown_from(
    out: Seq<(i32, i32)>,
    tiles: Seq<MineFieldTile>,
    w: int,
    x: int,
    y: int,
    m: int,
) -> bool {
    touching(x, y, out[m].0 as int, out[m].1 as int) || exists|m2: int|
        0 <= m2 < m && touching(
            out[m2].0 as int,
            out[m2].1 as int,
            out[m].0 as int,
            out[m].1 as int,
        ) && (#[trigger] tiles[index_of(w, out[m2].0 as int, out[m2].1 as int)]).adjacent_mines
            == 0
}

/// The `m`-th uncovered position lies on the board, was hidden and is now
/// revealed, and was reached from the origin or from entry `parent[m]`.
spec fn out_entry_ok(
    o: Seq<MineFieldTile>,
    c: Seq<MineFieldTile>,
    w: int,
    h: int,
    x: int,
    y: int,
    out: Seq<(i32, i32)>,
    parent: Seq<int>,
    m: int,
) -> bool {
    &&& in_bounds(w, h, out[m].0 as int, out[m].1 as int)
    &&& newly_revealed(o, c, index_of(w, out[m].0 as int, out[m].1 as int))
    &&& -1 <= parent[m] < m
    &&& parent[m] == -1 ==> touching(x, y, out[m].0 as int, out[m].1 as int)
    &&& parent[m] >= 0 ==> touching(
        out[parent[m]].0 as int,
        out[parent[m]].1 as int,
        out[m].0 as int,
        out[m].1 as int,
    ) && o[index_of(w, out[parent[m]].0 as int, out[parent[m]].1 as int)].adjacent_mines == 0
}

/// The `q`-th pending tile is the origin (rank -1) or the uncovered entry
/// `ranks[q]`, with no mined neighbour.
spec fn stack_entry_ok(
    o: Seq<MineFieldTile>,
    out: Seq<(i32, i32)>,
    stack: Seq<usize>,
    ranks: Seq<int>,
    origin: int,
    q: int,
) -> bool {
    &&& stack[q] < o.len()
    &&& -1 <= ranks[q] < out.len()
    &&& ranks[q] == -1 ==> stack[q] == origin
    &&& ranks[q] >= 0 ==> out[ranks[q]] == o[stack[q] as int].coords && o[stack[q] as int].adjacent_mines == 0
}

/// What a flood reveal from `(x, y)` did, taking tiles `o` to `c` and
/// uncovering the positions `out` in order: only hidden mine-free tiles were
/// revealed, each once, at most `MAX_FLOOD_TILES` of them, each touching the
/// origin or an earlier one with no mined neighbour; and, unless the bound was
/// reached, none is left hidden next to the origin or to an uncovered tile with
/// no mined neighbour.
pub open spec fn flood_result(
    o: Seq<MineFieldTile>,
    c: Seq<MineFieldTile>,
    w: int,
    h: int,
    x: int,
    y: int,
    out: Seq<(i32, i32)>,
    rem_before: nat,
    rem_after: nat,
) -> bool {
    &&& c.len() == o.len()
    &&& forall|j: int| 0 <= j < o.len() ==> #[trigger] flood_changed(o, c, j)
    &&& out.len() <= MAX_FLOOD_TILES
    &&& out.no_duplicates()
    &&& rem_after + out.len() == rem_before
    &&& forall|m: int|
        0 <= m < out.len() ==> {
            &&& in_bounds(w, h, (#[trigger] out[m]).0 as int, out[m].1 as int)
            &&& newly_revealed(o, c, index_of(w, out[m].0 as int, out[m].1 as int))
            &&& grown_from(out, o, w, x, y, m)
        }
    &&& forall|j: int|
        0 <= j < o.len() && #[trigger] newly_revealed(o, c, j) ==> out.contains(o[j].coords)
    &&& out.len() < MAX_FLOOD_TILES ==> settled(c, w, h, x, y)
    &&& out.len() < MAX_FLOOD_TILES ==> forall|j: int|
        0 <= j < o.len() && #[trigger] newly_revealed(o, c, j) && c[j].adjacent_mines == 0 ==> settled(
            c,
            w,
            h,
            c[j].coords.0 as int,
            c[j].coords.1 as int,
        )
}

/// Every mine-free neighbour of `(x, y)` is revealed.
pub open spec fn settled(tiles: Seq<MineFieldTile>, w: int, h: int, x: int, y: int) -> bool {
    forall|k: int|
        0 <= k < 8 && in_bounds(w, h, x + offset_x(k), y + offset_y(k)) ==> (#[trigger] tiles[index_of(
            w,
            x + offset_x(k),
            y + offset_y(k),
        )]).has_mine || tiles[index_of(w, x + offset_x(k), y + offset_y(k))].revealed
}

impl MineField {
    pub closed spec fn width(&self) -> int {
        self.size.0 as int
    }

    pub closed spec fn height(&self) -> int {
        self.size.1 as int
    }

    pub closed spec fn tiles(&self) -> Seq<MineFieldTile> {
        self.tiles@
    }

    /// Mine-free tiles still hidden (zero until mines are placed).
    pub closed spec fn remaining(&self) -> nat {
        self.required_num_to_clear as nat
    }

    pub closed spec fn placed(&self) -> bool {
        self.mines_placed
    }

    pub open spec fn tile_at(&self, x: int, y: int) -> MineFieldTile {
        self.tiles()[index_of(self.width(), x, y)]
    }

    pub open spec fn contains(&self, x: int, y: int) -> bool {
        in_bounds(self.width(), self.height(), x, y)
    }

    /// Everything `wf` asks but exact neighbour counts.
    pub open spec fn wf_layout(&self) -> bool {
        &&& tile_shape_ok(self.tiles(), self.width(), self.height())
        &&& self.placed() ==> self.remaining() == count_safe_hidden(self.tiles())
        &&& !self.placed() ==> self.remaining() == 0
        &&& !self.placed() ==> forall|i: int|
            0 <= i < self.tiles().len() ==> !#[trigger] self.tiles()[i].has_mine
    }

    pub open spec fn wf(&self) -> bool {
        &&& self.wf_layout()
        &&& counts_exact(self.tiles(), self.width(), self.height())
    }

    /// No mine placed, nothing revealed or flagged, nothing left to clear.
    pub open spec fn fresh(&self) -> bool {
        &&& !self.placed()
        &&& self.remaining() == 0
        &&& forall|i: int|
            0 <= i < self.tiles().len() ==> {
                let t = #[trigger] self.tiles()[i];
                !t.has_mine && !t.revealed && !t.flagged && t.adjacent_mines == 0
            }
    }

    /// Every tile that holds no mine has been revealed.
    pub open spec fn all_safe_revealed(&self) -> bool {
        forall|i: int|
            0 <= i < self.tiles().len() ==> (#[trigger] self.tiles()[i]).has_mine
                || self.tiles()[i].revealed
    }

    proof fn lemma_tile_coords(&self, x: int, y: int)
        requires
            tile_shape_ok(self.tiles(), self.width(), self.height()),
            self.contains(x, y),
        ensures
            0 <= index_of(self.width(), x, y) < self.tiles().len(),
            self.tile_at(x, y).coords == (x as i32, y as i32),
    {
        lemma_index_in_range(self.width(), self.height(), x, y);
        let i = index_of(self.width(), x, y);
        let t = self.tiles()[i];
        lemma_index_unique(self.width(), t.coords.0 as int, t.coords.1 as int, x, y);
    }

    /// A fresh `width` by `height` board: no mines, nothing revealed or flagged.
    pub fn new(width: i32, height: i32) -> (r: MineField)
        requires
            width > 0,
            height > 0,
            width * height <= usize::MAX,
        ensures
            r.wf(),
            r.width() == width,
            r.height() == height,
            r.fresh(),
    {
        let n: usize = (width as usize) * (height as usize);
        let mut tiles: Vec<MineFieldTile> = Vec::new();
        let mut x: i32 = 0;
        let mut y: i32 = 0;
        let mut i: usize = 0;
        while i < n
            invariant
                n == width * height,
                0 <= x < width,
                0 <= y,
                i == y * width + x,
                i <= n,
                i < n ==> y < height,
                tiles@.len() == i,
                forall|j: int|
                    0 <= j < i ==> {
                        &&& 0 <= (#[trigger] tiles@[j]).coords.0 < width
                        &&& 0 <= tiles@[j].coords.1 < height
                        &&& index_of(width as int, tiles@[j].coords.0 as int, tiles@[j].coords.1 as int) == j
                        &&& tiles@[j].index == j
                        &&& !tiles@[j].has_mine
                        &&& !tiles@[j].revealed
                        &&& !tiles@[j].flagged
                        &&& tiles@[j].adjacent_mines == 0
                    },
            decreases n - i,
        {
            tiles.push(
                MineFieldTile {
                    coords: (x, y),
                    revealed: false,
                    has_mine: false,
                    flagged: false,
                    adjacent_mines: 0,
                    index: i,
                },
            );
            i = i + 1;
            if x + 1 == width {
                proof {
                    assert((y + 1) * width == y * width + width) by (nonlinear_arith);
                }
                x = 0;
                y = y + 1;
                proof {
                    if i < n {
                        assert(y < height) by (nonlinear_arith)
                            requires
                                i == y * width,
                                i < width * height,
                                width > 0,
                        ;
                    }
                }
            } else {
                x = x + 1;
            }
        }
        let r = MineField { size: (width, height), tiles, required_num_to_clear: 0, mines_placed: false };
        proof {
            assert forall|j: int| 0 <= j < r.tiles().len() implies #[trigger] r.tiles()[j].adjacent_mines as int
                == adjacent_count(r.tiles(), r.width(), r.height(), r.tiles()[j].coords.0 as int, r.tiles()[j].coords.1 as int) by {
                lemma_no_mines_no_count(r.tiles(), r.width(), r.height(), r.tiles()[j].coords.0 as int, r.tiles()[j].coords.1 as int, 8);
            }
        }
        r
    }

    pub fn width_in_tiles(&self) -> (r: i32)
        ensures
            r == self.width(),
    {
        self.size.0
    }

    pub fn height_in_tiles(&self) -> (r: i32)
        ensures
            r == self.height(),
    {
        self.size.1
    }

    pub fn tile_count(&self) -> (r: usize)
        ensures
            r == self.tiles().len(),
    {
        self.tiles.len()
    }

    /// The tile stored at index `i` (row-major), for drawing the board.
    pub fn tile(&self, i: usize) -> (r: MineFieldTile)
        requires
            i < self.tiles().len(),
        ensures
            r == self.tiles()[i as int],
    {
        self.tiles[i]
    }

    pub fn remaining_safe_tiles(&self) -> (r: usize)
        ensures
            r == self.remaining(),
    {
        self.required_num_to_clear
    }

    pub fn mines_placed(&self) -> (r: bool)
        ensures
            r == self.placed(),
    {
        self.mines_placed
    }

    /// True once mines are placed and no mine-free tile is left hidden.
    pub fn is_cleared(&self) -> (r: bool)
        requires
            self.wf(),
        ensures
            r == (self.placed() && self.remaining() == 0),
            r == (self.placed() && self.all_safe_revealed()),
    {
        proof {
            lemma_zero_safe_hidden(self.tiles());
        }
        self.mines_placed && self.required_num_to_clear == 0
    }

    fn index_at(&self, x: i32, y: i32) -> (r: usize)
        requires
            tile_shape_ok(self.tiles(), self.width(), self.height()),
            self.contains(x as int, y as int),
        ensures
            r == index_of(self.width(), x as int, y as int),
            r < self.tiles().len(),
            self.tile_at(x as int, y as int).coords == (x, y),
    {
        proof {
            self.lemma_tile_coords(x as int, y as int);
        }
        let w = self.size.0;
        let n = self.tiles.len();
        proof {
            assert(y * w + x < n);
            assert((y as usize) * (w as usize) == y * w) by (nonlinear_arith)
                requires
                    0 <= y,
                    0 <= w,
                    y * w <= usize::MAX,
            ;
        }
        (y as usize) * (w as usize) + (x as usize)
    }

    /// The tile at `(x, y)`, or `None` off the board.
    pub fn get_tile(&self, x: i32, y: i32) -> (r: Option<MineFieldTile>)
        requires
            self.wf(),
        ensures
            !self.contains(x as int, y as int) ==> r is None,
            self.contains(x as int, y as int) ==> r == Some(self.tile_at(x as int, y as int)),
            r matches Some(t) ==> t.coords == (x, y),
    {
        if x < 0 || y < 0 || x >= self.size.0 || y >= self.size.1 {
            None
        } else {
            let i = self.index_at(x, y);
            Some(self.tiles[i])
        }
    }

    /// The neighbours of `(x, y)` that lie on the board, clockwise from north-west.
    pub fn get_neighbors(&self, x: i32, y: i32) -> (r: Vec<MineFieldTile>)
        requires
            tile_shape_ok(self.tiles(), self.width(), self.height()),
            self.contains(x as int, y as int),
        ensures
            r@ == neighbor_tiles(self.tiles(), self.width(), self.height(), x as int, y as int),
    {
        let mut out: Vec<MineFieldTile> = Vec::new();
        let mut k: usize = 0;
        while k < 8
            invariant
                tile_shape_ok(self.tiles(), self.width(), self.height()),
                self.contains(x as int, y as int),
                k <= 8,
                out@ == neighbor_tiles_upto(
                    self.tiles(),
                    self.width(),
                    self.height(),
                    x as int,
                    y as int,
                    k as nat,
                ),
            decreases 8 - k,
        {
            let (dx, dy) = neighbor_offset(k);
            let nx = x + dx;
            let ny = y + dy;
            if nx >= 0 && ny >= 0 && nx < self.size.0 && ny < self.size.1 {
                let i = self.index_at(nx, ny);
                out.push(self.tiles[i]);
            }
            k = k + 1;
        }
        out
    }

    /// Marks tile `i` revealed and unflagged, keeping the hidden-safe count exact.
    fn reveal_tile(&mut self, i: usize)
        requires
            old(self).wf(),
            i < old(self).tiles().len(),
        ensures
            final(self).wf(),
            final(self).width() == old(self).width(),
            final(self).height() == old(self).height(),
            final(self).placed() == old(self).placed(),
            final(self).tiles() == old(self).tiles().update(
                i as int,
                MineFieldTile { revealed: true, flagged: false, ..old(self).tiles()[i as int] },
            ),
            final(self).remaining() + (if old(self).placed() && safe_hidden(
                old(self).tiles()[i as int],
            ) {
                1int
            } else {
                0int
            }) == old(self).remaining(),
    {
        let mut t = self.tiles[i];
        let was_safe_hidden = !t.has_mine && !t.revealed;
        t.revealed = true;
        t.flagged = false;
        proof {
            lemma_count_safe_hidden_update(self.tiles(), i as int, t);
            lemma_adjacent_count_frame(self.tiles(), self.tiles().update(i as int, t), self.width(), self.height());
        }
        self.tiles.set(i, t);
        if self.mines_placed && was_safe_hidden {
            self.required_num_to_clear = self.required_num_to_clear - 1;
        }
    }

    /// Flips the flag on a hidden tile and returns its new state; a revealed
    /// tile is left alone and its (clear) flag returned; `None` off the board.
    pub fn toggle_flag(&mut self, x: i32, y: i32) -> (r: Option<bool>)
        requires
            old(self).wf(),
        ensures
            final(self).wf(),
            final(self).width() == old(self).width(),
            final(self).height() == old(self).height(),
            final(self).placed() == old(self).placed(),
            final(self).remaining() == old(self).remaining(),
            final(self).tiles() == flag_toggled(
                old(self).tiles(),
                old(self).width(),
                old(self).height(),
                x as int,
                y as int,
            ),
            !old(self).contains(x as int, y as int) ==> r is None,
            old(self).contains(x as int, y as int) ==> r == Some(
                final(self).tile_at(x as int, y as int).flagged,
            ),
    {
        if x < 0 || y < 0 || x >= self.size.0 || y >= self.size.1 {
            return None;
        }
        let i = self.index_at(x, y);
        let mut t = self.tiles[i];
        if t.revealed {
            return Some(t.flagged);
        }
        t.flagged = !t.flagged;
        proof {
            lemma_count_safe_hidden_update(self.tiles(), i as int, t);
            lemma_adjacent_count_frame(self.tiles(), self.tiles().update(i as int, t), self.width(), self.height());
        }
        self.tiles.set(i, t);
        Some(t.flagged)
    }

    /// Sets every tile's neighbour count to the number of mined neighbours.
    pub fn update_neighbors(&mut self)
        requires
            old(self).wf_layout(),
        ensures
            final(self).wf(),
            final(self).width() == old(self).width(),
            final(self).height() == old(self).height(),
            final(self).placed() == old(self).placed(),
            final(self).remaining() == old(self).remaining(),
            final(self).tiles() == recounted(old(self).tiles(), old(self).width(), old(self).height()),
    {
        let ghost orig = self.tiles();
        let ghost w = self.width();
        let ghost h = self.height();
        let n = self.tiles.len();
        let mut i: usize = 0;
        while i < n
            invariant
                n == orig.len(),
                i <= n,
                self.width() == w,
                self.height() == h,
                self.placed() == old(self).placed(),
                self.remaining() == old(self).remaining(),
                tile_shape_ok(orig, w, h),
                self.tiles().len() == n,
                forall|j: int| 0 <= j < i ==> #[trigger] self.tiles()[j] == recounted(orig, w, h)[j],
                forall|j: int| i <= j < n ==> #[trigger] self.tiles()[j] == orig[j],
            decreases n - i,
        {
            proof {
                assert(same_mines(orig, self.tiles()));
                assert(tile_shape_ok(self.tiles(), w, h)) by {
                    assert forall|j: int| 0 <= j < n implies (#[trigger] self.tiles()[j]).coords == orig[j].coords
                        && self.tiles()[j].index == orig[j].index
                        && self.tiles()[j].revealed == orig[j].revealed
                        && self.tiles()[j].flagged == orig[j].flagged by {
                        if j < i {
                            assert(self.tiles()[j] == recounted(orig, w, h)[j]);
                        }
                    }
                }
                lemma_adjacent_count_frame(orig, self.tiles(), w, h);
            }
            let mut t = self.tiles[i];
            let near = self.get_neighbors(t.coords.0, t.coords.1);
            let c = count_mined(&near);
            proof {
                lemma_adjacent_count_le8(self.tiles(), w, h, t.coords.0 as int, t.coords.1 as int);
            }
            t.adjacent_mines = c as u8;
            self.tiles.set(i, t);
            i = i + 1;
        }
        proof {
            assert(self.tiles() =~= recounted(orig, w, h));
            lemma_recount_keeps_counts(orig, w, h);
            lemma_counts_frame(orig, self.tiles());
        }
    }

    /// Places the mines: each hidden tile gets one exactly when its roll in
    /// `rolls` (one per tile, drawn from `0..=MINE_CHANCE`) equals `MINE_ROLL`;
    /// revealed tiles stay mine-free. Then recomputes every neighbour count and
    /// sets the hidden-safe count. Reports the mines laid and the mine-free
    /// tiles, revealed ones included.
    pub fn populate_mines(&mut self, rolls: &Vec<i32>) -> (r: Placement)
        requires
            old(self).wf(),
            !old(self).placed(),
            rolls@.len() == old(self).tiles().len(),
        ensures
            final(self).wf(),
            final(self).placed(),
            final(self).width() == old(self).width(),
            final(self).height() == old(self).height(),
            final(self).tiles() == recounted(
                mines_laid(old(self).tiles(), rolls@),
                old(self).width(),
                old(self).height(),
            ),
            final(self).remaining() == count_safe_hidden(final(self).tiles()),
            r.mined_count == count_mines(final(self).tiles()),
            r.clear_target == count_safe(final(self).tiles()),
    {
        let ghost orig = self.tiles();
        let ghost laid = mines_laid(orig, rolls@);
        let n = self.tiles.len();
        let mut mined: usize = 0;
        let mut clear: usize = 0;
        let mut hidden: usize = 0;
        let mut i: usize = 0;
        while i < n
            invariant
                n == orig.len(),
                rolls@.len() == n,
                laid == mines_laid(orig, rolls@),
                i <= n,
                tile_shape_ok(self.tiles(), self.width(), self.height()),
                forall|j: int| 0 <= j < n ==> !(#[trigger] orig[j]).has_mine,
                self.width() == old(self).width(),
                self.height() == old(self).height(),
                self.placed() == old(self).placed(),
                self.remaining() == old(self).remaining(),
                self.tiles().len() == n,
                forall|j: int| 0 <= j < i ==> #[trigger] self.tiles()[j] == laid[j],
                forall|j: int| i <= j < n ==> #[trigger] self.tiles()[j] == orig[j],
                mined <= i,
                clear <= i,
                hidden <= i,
                mined == count_mines(self.tiles().subrange(0, i as int)),
                clear == count_safe(self.tiles().subrange(0, i as int)),
                hidden == count_safe_hidden(self.tiles().subrange(0, i as int)),
            decreases n - i,
        {
            let ghost before = self.tiles();
            let mut t = self.tiles[i];
            if !t.revealed {
                t.has_mine = rolls[i] == MINE_ROLL;
            }
            if t.has_mine {
                mined = mined + 1;
            } else {
                clear = clear + 1;
                if !t.revealed {
                    hidden = hidden + 1;
                }
            }
            proof {
                assert(t == laid[i as int]);
            }
            self.tiles.set(i, t);
            proof {
                assert(self.tiles().subrange(0, i + 1).drop_last() =~= before.subrange(0, i as int));
                assert forall|j: int| 0 <= j < n implies (#[trigger] self.tiles()[j]).coords == before[j].coords
                    && self.tiles()[j].index == before[j].index
                    && self.tiles()[j].revealed == before[j].revealed
                    && self.tiles()[j].flagged == before[j].flagged by {}
            }
            i = i + 1;
        }
        proof {
            assert(self.tiles().subrange(0, n as int) =~= self.tiles());
            assert(self.tiles() =~= laid);
        }
        self.required_num_to_clear = hidden;
        self.mines_placed = true;
        self.update_neighbors();
        proof {
            lemma_counts_frame(laid, self.tiles());
        }
        Placement { mined_count: mined, clear_target: clear }
    }

    /// Reveals, from `(x, y)` outwards, every hidden mine-free neighbour of the
    /// origin and of each tile so revealed that has no mined neighbour, until
    /// none is left or `MAX_FLOOD_TILES` tiles have been revealed. Returns the
    /// positions revealed, in order.
    pub fn flood_reveal_from_pos(&mut self, x: i32, y: i32) -> (r: Vec<(i32, i32)>)
        requires
            old(self).wf(),
            old(self).placed(),
            old(self).contains(x as int, y as int),
        ensures
            final(self).wf(),
            final(self).placed(),
            final(self).width() == old(self).width(),
            final(self).height() == old(self).height(),
            flood_result(
                old(self).tiles(),
                final(self).tiles(),
                old(self).width(),
                old(self).height(),
                x as int,
                y as int,
                r@,
                old(self).remaining(),
                final(self).remaining(),
            ),
    {
        let ghost o = self.tiles();
        let ghost w = self.width();
        let ghost h = self.height();
        let ghost r0 = self.remaining();
        let origin = self.index_at(x, y);
        let mut stack: Vec<usize> = Vec::new();
        stack.push(origin);
        let ghost mut ranks: Seq<int> = seq![-1int];
        let ghost mut parent: Seq<int> = seq![];
        let mut out: Vec<(i32, i32)> = Vec::new();
        let mut exhausted = false;
        proof {
            assert(stack@.contains(origin)) by {
                assert(stack@[0] == origin);
            }
            assert forall|j: int| 0 <= j < o.len() implies #[trigger] flood_changed(o, self.tiles(), j) by {}
        }
        while stack.len() > 0 && !exhausted
            invariant
                self.flood_inv(o, w, h, x as int, y as int, origin as int, out@, parent, stack@, ranks, r0),
                exhausted ==> out@.len() == MAX_FLOOD_TILES,
                !exhausted ==> (settled(self.tiles(), w, h, x as int, y as int) || stack@.contains(origin)),
                !exhausted ==> forall|j: int|
                    0 <= j < o.len() && #[trigger] newly_revealed(o, self.tiles(), j) && o[j].adjacent_mines == 0
                        ==> settled(self.tiles(), w, h, o[j].coords.0 as int, o[j].coords.1 as int)
                            || stack@.contains(j as usize),
            decreases stack@.len() + 2 * (MAX_FLOOD_TILES - out@.len()),
        {
            let ghost stack0 = stack@;
            let ghost ranks0 = ranks;
            let e = stack.pop().unwrap();
            let ghost erank = ranks.last();
            let ghost measure = stack@.len() + 2 * (MAX_FLOOD_TILES - out@.len());
            proof {
                ranks = ranks.drop_last();
                assert(stack@ =~= stack0.drop_last());
                assert(stack0[stack0.len() - 1] == e);
                assert(stack_entry_ok(o, out@, stack0, ranks0, origin as int, stack0.len() - 1));
                assert(flood_changed(o, self.tiles(), e as int));
                assert forall|q: int| 0 <= q < stack@.len() implies #[trigger] stack_entry_ok(o, out@, stack@, ranks, origin as int, q) by {
                    assert(stack_entry_ok(o, out@, stack0, ranks0, origin as int, q));
                    assert(stack@[q] == stack0[q] && ranks[q] == ranks0[q]);
                }
                if !settled(self.tiles(), w, h, x as int, y as int) {
                    let q = choose|q: int| 0 <= q < stack0.len() && stack0[q] == origin;
                    if q < stack0.len() - 1 {
                        assert(stack@[q] == origin);
                    }
                }
                assert forall|j: int|
                    0 <= j < o.len() && #[trigger] newly_revealed(o, self.tiles(), j) && o[j].adjacent_mines == 0
                        implies settled(self.tiles(), w, h, o[j].coords.0 as int, o[j].coords.1 as int)
                            || stack@.contains(j as usize) || j == e by {
                    if !settled(self.tiles(), w, h, o[j].coords.0 as int, o[j].coords.1 as int) {
                        let q = choose|q: int| 0 <= q < stack0.len() && stack0[q] == j as usize;
                        if q < stack0.len() - 1 {
                            assert(stack@[q] == j as usize);
                        }
                    }
                }
            }
            let (ex, ey) = self.tiles[e].coords;
            let mut k: usize = 0;
            while k < 8 && !exhausted
                invariant
                    self.flood_inv(o, w, h, x as int, y as int, origin as int, out@, parent, stack@, ranks, r0),
                    e < o.len(),
                    (ex, ey) == o[e as int].coords,
                    -1 <= erank < out@.len(),
                    erank == -1 ==> e == origin,
                    erank >= 0 ==> out@[erank] == o[e as int].coords && o[e as int].adjacent_mines == 0,
                    k <= 8,
                    stack@.len() + 2 * (MAX_FLOOD_TILES - out@.len()) <= measure,
                    exhausted ==> out@.len() == MAX_FLOOD_TILES,
                    !exhausted ==> forall|kk: int|
                        0 <= kk < k && in_bounds(w, h, ex + offset_x(kk), ey + offset_y(kk)) ==> (
                            #[trigger] self.tiles()[index_of(w, ex + offset_x(kk), ey + offset_y(kk))]).has_mine
                            || self.tiles()[index_of(w, ex + offset_x(kk), ey + offset_y(kk))].revealed,
                    !exhausted ==> (settled(self.tiles(), w, h, x as int, y as int) || stack@.contains(origin) || e == origin),
                    !exhausted ==> forall|j: int|
                        0 <= j < o.len() && #[trigger] newly_revealed(o, self.tiles(), j) && o[j].adjacent_mines == 0
                            ==> settled(self.tiles(), w, h, o[j].coords.0 as int, o[j].coords.1 as int)
                                || stack@.contains(j as usize) || j == e,
                decreases 8 - k,
            {
                let (dx, dy) = neighbor_offset(k);
                let nx = ex + dx;
                let ny = ey + dy;
                if nx >= 0 && ny >= 0 && nx < self.size.0 && ny < self.size.1 {
                    let ni = self.index_at(nx, ny);
                    let nt = self.tiles[ni];
                    if !nt.has_mine && !nt.revealed {
                        if out.len() >= MAX_FLOOD_TILES {
                            exhausted = true;
                        } else {
                            let ghost c0 = self.tiles();
                            let ghost out0 = out@;
                            let ghost stack1 = stack@;
                            let ghost ranks1 = ranks;
                            let ghost parent0 = parent;
                            proof {
                                assert(flood_changed(o, c0, ni as int));
                                assert(tile_shape_ok(o, w, h));
                                assert(index_of(w, o[e as int].coords.0 as int, o[e as int].coords.1 as int) == e);
                                lemma_offset_touching(ex as int, ey as int, k as int);
                                assert forall|m: int| 0 <= m < out0.len() implies out0[m] != (nx, ny) by {
                                    assert(out_entry_ok(o, c0, w, h, x as int, y as int, out0, parent0, m));
                                }
                            }
                            self.reveal_tile(ni);
                            out.push((nx, ny));
                            proof {
                                parent = parent.push(erank);
                            }
                            if nt.adjacent_mines == 0 {
                                stack.push(ni);
                                proof {
                                    ranks = ranks.push(out@.len() - 1);
                                }
                            }
                            proof {
                                let c1 = self.tiles();
                                assert(c0[ni as int] == o[ni as int]);
                                assert forall|j: int| 0 <= j < o.len() implies #[trigger] flood_changed(o, c1, j) by {
                                    assert(flood_changed(o, c0, j));
                                }
                                assert(out@ == out0.push((nx, ny)));
                                assert forall|a: int, b: int| 0 <= a < out@.len() && 0 <= b < out@.len() && a != b
                                    implies out@[a] != out@[b] by {
                                    if a < out0.len() && b < out0.len() {
                                        assert(out@[a] == out0[a] && out@[b] == out0[b]);
                                    }
                                }
                                assert forall|m: int| 0 <= m < out@.len() implies #[trigger] out_entry_ok(
                                    o, c1, w, h, x as int, y as int, out@, parent, m) by {
                                    if m < out0.len() {
                                        assert(out_entry_ok(o, c0, w, h, x as int, y as int, out0, parent0, m));
                                        assert(out@[m] == out0[m]);
                                        lemma_index_in_range(w, h, out0[m].0 as int, out0[m].1 as int);
                                        assert(parent[m] == parent0[m]);
                                        if parent0[m] >= 0 {
                                            assert(out@[parent0[m]] == out0[parent0[m]]);
                                        }
                                    } else {
                                        assert(out@[m] == (nx, ny));
                                        assert(parent[m] == erank);
                                        assert(in_bounds(w, h, nx as int, ny as int));
                                        assert(index_of(w, nx as int, ny as int) == ni);
                                        assert(newly_revealed(o, c1, ni as int));
                                        if erank >= 0 {
                                            assert(out@[erank] == out0[erank]);
                                            assert(touching(ex as int, ey as int, nx as int, ny as int));
                                            assert(o[index_of(w, ex as int, ey as int)].adjacent_mines == 0);
                                        } else {
                                            assert(touching(x as int, y as int, nx as int, ny as int));
                                        }
                                    }
                                }
                                assert forall|j: int|
                                    0 <= j < o.len() && #[trigger] newly_revealed(o, c1, j) implies out@.contains(o[j].coords) by {
                                    if j == ni as int {
                                        assert(out@[out@.len() - 1] == o[j].coords);
                                    } else {
                                        assert(newly_revealed(o, c0, j));
                                        let m = choose|m: int| 0 <= m < out0.len() && out0[m] == o[j].coords;
                                        assert(out@[m] == out0[m]);
                                    }
                                }
                                assert forall|q: int| 0 <= q < stack@.len() implies #[trigger] stack_entry_ok(
                                    o, out@, stack@, ranks, origin as int, q) by {
                                    if q < stack1.len() {
                                        assert(stack_entry_ok(o, out0, stack1, ranks1, origin as int, q));
                                        assert(stack@[q] == stack1[q] && ranks[q] == ranks1[q]);
                                        if ranks1[q] >= 0 {
                                            assert(out@[ranks1[q]] == out0[ranks1[q]]);
                                        }
                                    }
                                }
                                lemma_settled_mono(c0, c1, w, h, x as int, y as int);
                                assert forall|kk: int|
                                    0 <= kk < k + 1 && in_bounds(w, h, ex + offset_x(kk), ey + offset_y(kk)) implies (
                                        #[trigger] c1[index_of(w, ex + offset_x(kk), ey + offset_y(kk))]).has_mine
                                        || c1[index_of(w, ex + offset_x(kk), ey + offset_y(kk))].revealed by {
                                    lemma_index_in_range(w, h, ex + offset_x(kk), ey + offset_y(kk));
                                }
                                if !settled(c0, w, h, x as int, y as int) && stack1.contains(origin) {
                                    let q = choose|q: int| 0 <= q < stack1.len() && stack1[q] == origin;
                                    assert(stack@[q] == stack1[q]);
                                }
                                assert forall|j: int|
                                    0 <= j < o.len() && #[trigger] newly_revealed(o, c1, j) && o[j].adjacent_mines == 0
                                        implies settled(c1, w, h, o[j].coords.0 as int, o[j].coords.1 as int)
                                            || stack@.contains(j as usize) || j == e by {
                                    if j == ni as int {
                                        assert(stack@[stack@.len() - 1] == ni);
                                    } else {
                                        assert(newly_revealed(o, c0, j));
                                        lemma_settled_mono(c0, c1, w, h, o[j].coords.0 as int, o[j].coords.1 as int);
                                        if !settled(c0, w, h, o[j].coords.0 as int, o[j].coords.1 as int) && j != e {
                                            let q = choose|q: int| 0 <= q < stack1.len() && stack1[q] == j as usize;
                                            assert(stack@[q] == stack1[q]);
                                        }
                                    }
                                }
                            }
                        }
                    }
                }
                k = k + 1;
            }
        }
        proof {
            assert(w == old(self).width() && h == old(self).height() && o == old(self).tiles());
            assert forall|m: int| 0 <= m < out@.len() implies old(self).contains((#[trigger] out@[m]).0 as int, out@[m].1 as int)
                && newly_revealed(old(self).tiles(), self.tiles(), index_of(old(self).width(), out@[m].0 as int, out@[m].1 as int))
                && grown_from(out@, old(self).tiles(), old(self).width(), x as int, y as int, m) by {
                assert(out_entry_ok(o, self.tiles(), w, h, x as int, y as int, out@, parent, m));
                if parent[m] >= 0 {
                    let m2 = parent[m];
                    assert(o[index_of(w, out@[m2].0 as int, out@[m2].1 as int)].adjacent_mines == 0);
                }
            }
            if out@.len() < MAX_FLOOD_TILES {
                assert(!exhausted);
                assert(stack@.len() == 0);
                assert forall|j: int|
                    0 <= j < o.len() && #[trigger] newly_revealed(o, self.tiles(), j)
                        && self.tiles()[j].adjacent_mines == 0 implies settled(
                    self.tiles(), w, h, self.tiles()[j].coords.0 as int, self.tiles()[j].coords.1 as int) by {
                    assert(flood_changed(o, self.tiles(), j));
                }
            }
        }
        out
    }

    spec fn flood_inv(
        &self,
        o: Seq<MineFieldTile>,
        w: int,
        h: int,
        x: int,
        y: int,
        origin: int,
        out: Seq<(i32, i32)>,
        parent: Seq<int>,
        stack: Seq<usize>,
        ranks: Seq<int>,
        r0: nat,
    ) -> bool {
        &&& self.wf()
        &&& self.placed()
        &&& self.width() == w
        &&& self.height() == h
        &&& self.tiles().len() == o.len()
        &&& tile_shape_ok(o, w, h)
        &&& origin == index_of(w, x, y)
        &&& 0 <= origin < o.len()
        &&& o[origin].coords.0 == x && o[origin].coords.1 == y
        &&& forall|j: int| 0 <= j < o.len() ==> #[trigger] flood_changed(o, self.tiles(), j)
        &&& out.len() <= MAX_FLOOD_TILES
        &&& out.no_duplicates()
        &&& self.remaining() + out.len() == r0
        &&& parent.len() == out.len()
        &&& forall|m: int| 0 <= m < out.len() ==> #[trigger] out_entry_ok(o, self.tiles(), w, h, x, y, out, parent, m)
        &&& forall|j: int|
            0 <= j < o.len() && #[trigger] newly_revealed(o, self.tiles(), j) ==> out.contains(o[j].coords)
        &&& ranks.len() == stack.len()
        &&& forall|q: int| 0 <= q < stack.len() ==> #[trigger] stack_entry_ok(o, out, stack, ranks, origin, q)
    }

    pub open spec fn unchanged_from(&self, other: &MineField) -> bool {
        &&& self.tiles() == other.tiles()
        &&& self.remaining() == other.remaining()
        &&& self.placed() == other.placed()
    }

    /// What a reveal at `(x, y)` during play reports.
    pub open spec fn reveal_outcome(&self, x: int, y: int) -> RevealOutcome {
        let t = self.tile_at(x, y);
        if !self.contains(x, y) {
            RevealOutcome::OutOfBounds
        } else if t.revealed {
            RevealOutcome::AlreadyRevealed
        } else if t.flagged {
            RevealOutcome::Flagged
        } else if t.has_mine {
            RevealOutcome::Mine
        } else {
            RevealOutcome::Safe
        }
    }

    /// `after` is this board after a reveal at `(x, y)` during play: a hidden,
    /// unflagged tile is revealed; a mine-free one lowers the hidden-safe count
    /// by one and, with no mined neighbour, is flooded from; anything else
    /// leaves the board as it was.
    pub open spec fn reveal_effect(&self, after: &MineField, x: int, y: int) -> bool {
        let t = self.tile_at(x, y);
        let mid = opened(self.tiles(), index_of(self.width(), x, y));
        let acts = self.contains(x, y) && !t.revealed && !t.flagged;
        &&& !acts ==> after.unchanged_from(self)
        &&& acts && t.has_mine ==> after.tiles() == mid && after.remaining() == self.remaining()
        &&& acts && !t.has_mine && t.adjacent_mines > 0 ==> after.tiles() == mid && after.remaining() + 1
            == self.remaining()
        &&& acts && !t.has_mine && t.adjacent_mines == 0 ==> exists|out: Seq<(i32, i32)>|
            #[trigger] flood_result(
                mid,
                after.tiles(),
                self.width(),
                self.height(),
                x,
                y,
                out,
                (self.remaining() - 1) as nat,
                after.remaining(),
            )
    }

    /// What the first reveal of a game at `(x, y)` reports.
    pub open spec fn first_reveal_outcome(&self, x: int, y: int) -> RevealOutcome {
        if !self.contains(x, y) {
            RevealOutcome::OutOfBounds
        } else if self.tile_at(x, y).flagged {
            RevealOutcome::Flagged
        } else {
            RevealOutcome::Safe
        }
    }

    /// `after` is this board after the first reveal of a game at `(x, y)`
    /// with mine rolls `rolls`: the tile is revealed, the mines are laid from
    /// the rolls around it, the counts are recomputed and a flood runs from
    /// it. Off the board or on a flagged tile nothing changes.
    pub open spec fn first_reveal_effect(&self, after: &MineField, x: int, y: int, rolls: Seq<i32>) -> bool {
        let w = self.width();
        let h = self.height();
        let mid = recounted(mines_laid(opened(self.tiles(), index_of(w, x, y)), rolls), w, h);
        if self.first_reveal_outcome(x, y) != RevealOutcome::Safe {
            after.unchanged_from(self)
        } else {
            &&& after.placed()
            &&& after.tile_at(x, y).revealed
            &&& !after.tile_at(x, y).has_mine
            &&& exists|out: Seq<(i32, i32)>|
                #[trigger] flood_result(mid, after.tiles(), w, h, x, y, out, count_safe_hidden(mid), after.remaining())
        }
    }

    /// Reveals the tile at `(x, y)` during play. A hidden, unflagged tile is
    /// revealed; if it is mine-free the hidden-safe count drops by one, and if
    /// it also has no mined neighbour a flood reveal runs from it. Off-board,
    /// revealed and flagged tiles are left alone.
    pub fn reveal_at(&mut self, x: i32, y: i32) -> (r: RevealOutcome)
        requires
            old(self).wf(),
            old(self).placed(),
        ensures
            final(self).wf(),
            final(self).placed(),
            final(self).width() == old(self).width(),
            final(self).height() == old(self).height(),
            r == old(self).reveal_outcome(x as int, y as int),
            old(self).reveal_effect(final(self), x as int, y as int),
    {
        if x < 0 || y < 0 || x >= self.size.0 || y >= self.size.1 {
            return RevealOutcome::OutOfBounds;
        }
        let i = self.index_at(x, y);
        let t = self.tiles[i];
        if t.revealed {
            return RevealOutcome::AlreadyRevealed;
        }
        if t.flagged {
            return RevealOutcome::Flagged;
        }
        self.reveal_tile(i);
        if t.has_mine {
            return RevealOutcome::Mine;
        }
        if t.adjacent_mines == 0 {
            let ghost mid = self.tiles();
            let ghost rem = self.remaining();
            let out = self.flood_reveal_from_pos(x, y);
            proof {
                assert(mid == opened(old(self).tiles(), index_of(old(self).width(), x as int, y as int)));
                assert(rem == (old(self).remaining() - 1) as nat);
                assert(flood_result(mid, self.tiles(), old(self).width(), old(self).height(), x as int, y as int, out@, rem, self.remaining()));
            }
        }
        RevealOutcome::Safe
    }

    /// The first reveal of a game, before any mine is placed: the tile at
    /// `(x, y)` is revealed first, so mine placement (with `rolls`, one per
    /// tile) leaves it mine-free; then the neighbour counts are computed and a
    /// flood reveal runs from it. Off-board and flagged tiles are left alone.
    pub fn first_reveal(&mut self, x: i32, y: i32, rolls: &Vec<i32>) -> (r: RevealOutcome)
        requires
            old(self).wf(),
            !old(self).placed(),
            rolls@.len() == old(self).tiles().len(),
        ensures
            final(self).wf(),
            final(self).width() == old(self).width(),
            final(self).height() == old(self).height(),
            r == old(self).first_reveal_outcome(x as int, y as int),
            old(self).first_reveal_effect(final(self), x as int, y as int, rolls@),
    {
        if x < 0 || y < 0 || x >= self.size.0 || y >= self.size.1 {
            return RevealOutcome::OutOfBounds;
        }
        let i = self.index_at(x, y);
        if self.tiles[i].flagged {
            return RevealOutcome::Flagged;
        }
        self.reveal_tile(i);
        let ghost pre = self.tiles();
        proof {
            assert(pre == opened(old(self).tiles(), index_of(old(self).width(), x as int, y as int)));
        }
        self.populate_mines(rolls);
        let ghost mid = self.tiles();
        let ghost rem = self.remaining();
        proof {
            assert(mid[i as int].revealed && !mid[i as int].has_mine);
        }
        let out = self.flood_reveal_from_pos(x, y);
        proof {
            assert(mid == recounted(mines_laid(pre, rolls@), old(self).width(), old(self).height()));
            assert(rem == count_safe_hidden(mid));
            assert(flood_result(mid, self.tiles(), old(self).width(), old(self).height(), x as int, y as int, out@, rem, self.remaining()));
            assert(flood_changed(mid, self.tiles(), i as int));
        }
        RevealOutcome::Safe
    }
}

/// Column and row offset of the `k`-th neighbour direction.
fn neighbor_offset(k: usize) -> (r: (i32, i32))
    requires
        k < 8,
    ensures
        r.0 == offset_x(k as int),
        r.1 == offset_y(k as int),
{
    if k == 0 {
        (-1, -1)
    } else if k == 1 {
        (0, -1)
    } else if k == 2 {
        (1, -1)
    } else if k == 3 {
        (1, 0)
    } else if k == 4 {
        (1, 1)
    } else if k == 5 {
        (0, 1)
    } else if k == 6 {
        (-1, 1)
    } else {
        (-1, 0)
    }
}

/// Number of mined tiles in `s`.
fn count_mined(s: &Vec<MineFieldTile>) -> (r: usize)
    ensures
        r == count_mines(s@),
        r <= s@.len(),
{
    let mut c: usize = 0;
    let mut j: usize = 0;
    while j < s.len()
        invariant
            j <= s@.len(),
            c <= j,
            c == count_mines(s@.subrange(0, j as int)),
        decreases s@.len() - j,
    {
        proof {
            assert(s@.subrange(0, j + 1).drop_last() =~= s@.subrange(0, j as int));
        }
        if s[j].has_mine {
            c = c + 1;
        }
        j = j + 1;
    }
    proof {
        assert(s@.subrange(0, j as int) =~= s@);
    }
    c
}

proof fn lemma_count_mines_le_len(s: Seq<MineFieldTile>)
    ensures
        count_mines(s) <= s.len(),
    decreases s.len(),
{
    if s.len() > 0 {
        lemma_count_mines_le_len(s.drop_last());
    }
}

proof fn lemma_neighbor_len(tiles: Seq<MineFieldTile>, w: int, h: int, x: int, y: int, k: nat)
    ensures
        neighbor_tiles_upto(tiles, w, h, x, y, k).len() <= k,
    decreases k,
{
    if k > 0 {
        lemma_neighbor_len(tiles, w, h, x, y, (k - 1) as nat);
    }
}

proof fn lemma_adjacent_count_le8(tiles: Seq<MineFieldTile>, w: int, h: int, x: int, y: int)
    ensures
        adjacent_count(tiles, w, h, x, y) <= 8,
{
    lemma_neighbor_len(tiles, w, h, x, y, 8);
    lemma_count_mines_le_len(neighbor_tiles(tiles, w, h, x, y));
}

/// Counts that look only at mines and reveals agree on sequences that agree on those.
proof fn lemma_counts_frame(a: Seq<MineFieldTile>, b: Seq<MineFieldTile>)
    requires
        a.len() == b.len(),
        forall|i: int|
            0 <= i < a.len() ==> (#[trigger] a[i]).has_mine == b[i].has_mine && a[i].revealed
                == b[i].revealed,
    ensures
        count_mines(a) == count_mines(b),
        count_safe(a) == count_safe(b),
        count_safe_hidden(a) == count_safe_hidden(b),
    decreases a.len(),
{
    if a.len() > 0 {
        let a2 = a.drop_last();
        let b2 = b.drop_last();
        assert forall|i: int| 0 <= i < a2.len() implies (#[trigger] a2[i]).has_mine == b2[i].has_mine
            && a2[i].revealed == b2[i].revealed by {
            assert(a2[i] == a[i] && b2[i] == b[i]);
        }
        lemma_counts_frame(a2, b2);
        assert(a.last() == a[a.len() - 1] && b.last() == b[b.len() - 1]);
    }
}

/// Recounting keeps the board's shape and makes every count exact.
proof fn lemma_recount_keeps_counts(tiles: Seq<MineFieldTile>, w: int, h: int)
    requires
        tile_shape_ok(tiles, w, h),
    ensures
        tile_shape_ok(recounted(tiles, w, h), w, h),
        same_mines(tiles, recounted(tiles, w, h)),
        counts_exact(recounted(tiles, w, h), w, h),
        forall|i: int|
            0 <= i < tiles.len() ==> (#[trigger] recounted(tiles, w, h)[i]).revealed
                == tiles[i].revealed,
{
    let r = recounted(tiles, w, h);
    assert(same_mines(tiles, r));
    lemma_adjacent_count_frame(tiles, r, w, h);
    assert forall|i: int| 0 <= i < r.len() implies #[trigger] r[i].adjacent_mines as int == adjacent_count(
        r,
        w,
        h,
        r[i].coords.0 as int,
        r[i].coords.1 as int,
    ) by {
        lemma_adjacent_count_le8(tiles, w, h, tiles[i].coords.0 as int, tiles[i].coords.1 as int);
    }
}

/// Recomputing neighbour counts a second time changes nothing.
pub proof fn lemma_recount_idempotent(tiles: Seq<MineFieldTile>, w: int, h: int)
    requires
        tile_shape_ok(tiles, w, h),
    ensures
        recounted(recounted(tiles, w, h), w, h) == recounted(tiles, w, h),
{
    let r = recounted(tiles, w, h);
    lemma_recount_keeps_counts(tiles, w, h);
    lemma_adjacent_count_frame(tiles, r, w, h);
    assert forall|i: int| 0 <= i < r.len() implies #[trigger] recounted(r, w, h)[i] == r[i] by {
        lemma_adjacent_count_le8(tiles, w, h, tiles[i].coords.0 as int, tiles[i].coords.1 as int);
    }
    assert(recounted(r, w, h) =~= r);
}

proof fn lemma_offset_touching(x: int, y: int, k: int)
    requires
        0 <= k < 8,
    ensures
        touching(x, y, x + offset_x(k), y + offset_y(k)),
{
}

proof fn lemma_settled_mono(c0: Seq<MineFieldTile>, c1: Seq<MineFieldTile>, w: int, h: int, x: int, y: int)
    requires
        c0.len() == c1.len(),
        c0.len() == w * h,
        forall|j: int| 0 <= j < c0.len() ==> ((#[trigger] c0[j]).has_mine || c0[j].revealed) ==> (c1[j].has_mine || c1[j].revealed),
    ensures
        settled(c0, w, h, x, y) ==> settled(c1, w, h, x, y),
{
    if settled(c0, w, h, x, y) {
        assert forall|k: int| 0 <= k < 8 && in_bounds(w, h, x + offset_x(k), y + offset_y(k)) implies (#[trigger] c1[index_of(
            w,
            x + offset_x(k),
            y + offset_y(k),
        )]).has_mine || c1[index_of(w, x + offset_x(k), y + offset_y(k))].revealed by {
            lemma_index_in_range(w, h, x + offset_x(k), y + offset_y(k));
            let i = index_of(w, x + offset_x(k), y + offset_y(k));
            assert(c0[i].has_mine || c0[i].revealed);
        }
    }
}

proof fn lemma_no_mines_no_count(tiles: Seq<MineFieldTile>, w: int, h: int, x: int, y: int, k: nat)
    requires
        w > 0,
        tiles.len() == w * h,
        forall|i: int| 0 <= i < tiles.len() ==> !#[trigger] tiles[i].has_mine,
    ensures
        count_mines(neighbor_tiles_upto(tiles, w, h, x, y, k)) == 0,
    decreases k,
{
    if k > 0 {
        lemma_no_mines_no_count(tiles, w, h, x, y, (k - 1) as nat);
        let nx = x + offset_x(k - 1);
        let ny = y + offset_y(k - 1);
        if in_bounds(w, h, nx, ny) {
            lemma_index_in_range(w, h, nx, ny);
            let prev = neighbor_tiles_upto(tiles, w, h, x, y, (k - 1) as nat);
            assert(prev.push(tiles[index_of(w, nx, ny)]).drop_last() =~= prev);
        }
    }
}

proof fn lemma_zero_safe_hidden(s: Seq<MineFieldTile>)
    ensures
        (count_safe_hidden(s) == 0) == (forall|i: int| 0 <= i < s.len() ==> (#[trigger] s[i]).has_mine || s[i].revealed),
    decreases s.len(),
{
    if s.len() > 0 {
        lemma_zero_safe_hidden(s.drop_last());
        if count_safe_hidden(s) == 0 {
            assert forall|i: int| 0 <= i < s.len() implies (#[trigger] s[i]).has_mine || s[i].revealed by {
                if i < s.len() - 1 {
                    assert(s.drop_last()[i] == s[i]);
                }
            }
        } else if forall|i: int| 0 <= i < s.len() ==> (#[trigger] s[i]).has_mine || s[i].revealed {
            assert forall|i: int| 0 <= i < s.drop_last().len() implies (#[trigger] s.drop_last()[i]).has_mine || s.drop_last()[i].revealed by {
                assert(s.drop_last()[i] == s[i]);
            }
            assert(!safe_hidden(s[s.len() - 1]));
        }
    }
}

} // verus!
