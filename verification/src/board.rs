use vstd::prelude::*;

use crate::counting::{grid_count, lemma_grid_count_zero};
use crate::tile::{Tile, TileState, TileType};

verus! {

/// Predicate on tiles picking the mines, for grid counting.
pub open spec fn mine_pred() -> spec_fn(Tile) -> bool {
    |t: Tile| t.tile_type is Mine
}

/// Predicate on tiles picking the non-mines, for grid counting.
pub open spec fn free_pred() -> spec_fn(Tile) -> bool {
    |t: Tile| !(t.tile_type is Mine)
}

/// Predicate on tiles picking the hidden ones, for grid counting.
pub open spec fn hidden_pred() -> spec_fn(Tile) -> bool {
    |t: Tile| t.state is Hidden
}

/// Chebyshev distance 1: the two coordinates differ, each by at most one.
pub open spec fn is_adjacent(ax: int, ay: int, bx: int, by: int) -> bool {
    !(ax == bx && ay == by) && -1 <= ax - bx <= 1 && -1 <= ay - by <= 1
}

/// Whether the coordinate pair `(a, b)` occurs in `s`.
pub open spec fn contains_coord(s: Seq<(usize, usize)>, a: int, b: int) -> bool {
    exists|i: int| 0 <= i < s.len() && s[i].0 == a && s[i].1 == b
}

/// A rectangular grid of tiles, stored row by row: `tiles[y][x]` is the tile
/// in column `x` of row `y`.
pub struct Board {
    pub tiles: Vec<Vec<Tile>>,
}

impl Board {
    pub open spec fn rows_spec(self) -> int {
        self.tiles@.len() as int
    }

    pub open spec fn cols_spec(self) -> int {
        self.tiles@[0]@.len() as int
    }

    /// At least one row and one column, and every row has the same length.
    pub open spec fn wf(self) -> bool {
        &&& self.tiles@.len() > 0
        &&& self.tiles@[0]@.len() > 0
        &&& forall|y: int|
            0 <= y < self.tiles@.len() ==> (#[trigger] self.tiles@[y])@.len() == self.cols_spec()
    }

    pub open spec fn in_bounds(self, x: int, y: int) -> bool {
        0 <= x < self.cols_spec() && 0 <= y < self.rows_spec()
    }

    pub open spec fn tile_at(self, x: int, y: int) -> Tile {
        self.tiles@[y]@[x]
    }

    pub open spec fn kind_at(self, x: int, y: int) -> TileType {
        self.tile_at(x, y).tile_type
    }

    pub open spec fn state_at(self, x: int, y: int) -> TileState {
        self.tile_at(x, y).state
    }

    pub open spec fn is_mine_at(self, x: int, y: int) -> bool {
        self.in_bounds(x, y) && self.kind_at(x, y) is Mine
    }

    pub open spec fn mine_ind(self, x: int, y: int) -> int {
        if self.is_mine_at(x, y) {
            1
        } else {
            0
        }
    }

    pub open spec fn is_flag_at(self, x: int, y: int) -> bool {
        self.in_bounds(x, y) && self.state_at(x, y) is Flagged
    }

    pub open spec fn flag_ind(self, x: int, y: int) -> int {
        if self.is_flag_at(x, y) {
            1
        } else {
            0
        }
    }

    /// Exact number of mines among the up-to-8 neighbors of `(x, y)`.
    pub open spec fn adj_mines(self, x: int, y: int) -> int {
        self.mine_ind(x - 1, y - 1) + self.mine_ind(x, y - 1) + self.mine_ind(x + 1, y - 1)
            + self.mine_ind(x - 1, y) + self.mine_ind(x + 1, y) + self.mine_ind(x - 1, y + 1)
            + self.mine_ind(x, y + 1) + self.mine_ind(x + 1, y + 1)
    }

    /// Exact number of flagged tiles among the up-to-8 neighbors of `(x, y)`.
    pub open spec fn adj_flags(self, x: int, y: int) -> int {
        self.flag_ind(x - 1, y - 1) + self.flag_ind(x, y - 1) + self.flag_ind(x + 1, y - 1)
            + self.flag_ind(x - 1, y) + self.flag_ind(x + 1, y) + self.flag_ind(x - 1, y + 1)
            + self.flag_ind(x, y + 1) + self.flag_ind(x + 1, y + 1)
    }

    /// Every non-mine tile carries exactly the count of mines among its
    /// neighbors: `Empty` when that count is zero, `Number(n)` otherwise.
    pub open spec fn counts_correct(self) -> bool {
        forall|x: int, y: int|
            #![trigger self.kind_at(x, y)]
            self.in_bounds(x, y) && !(self.kind_at(x, y) is Mine) ==> self.kind_at(x, y) == (
            if self.adj_mines(x, y) == 0 {
                TileType::Empty
            } else {
                TileType::Number(self.adj_mines(x, y) as u32)
            })
    }

    /// Total number of mine tiles on the board.
    pub open spec fn mine_count(self) -> int {
        grid_count(self.tiles@, mine_pred())
    }

    /// Total number of hidden tiles on the board.
    pub open spec fn hidden_count(self) -> int {
        grid_count(self.tiles@, hidden_pred())
    }

    pub open spec fn all_hidden(self) -> bool {
        forall|x: int, y: int|
            self.in_bounds(x, y) ==> #[trigger] self.state_at(x, y) is Hidden
    }

    pub open spec fn same_dims(self, other: Board) -> bool {
        self.rows_spec() == other.rows_spec() && self.cols_spec() == other.cols_spec()
    }

    /// The coordinate pair `c` names an in-bounds neighbor of `(x, y)`.
    pub open spec fn neighbor_ok(self, x: int, y: int, c: (usize, usize)) -> bool {
        self.in_bounds(c.0 as int, c.1 as int) && is_adjacent(c.0 as int, c.1 as int, x, y)
    }

    pub fn rows(&self) -> (n: usize)
        ensures
            n == self.rows_spec(),
    {
        self.tiles.len()
    }

    pub fn cols(&self) -> (n: usize)
        requires
            self.wf(),
        ensures
            n == self.cols_spec(),
    {
        self.tiles[0].len()
    }

    pub fn in_grid(&self, x: usize, y: usize) -> (r: bool)
        requires
            self.wf(),
        ensures
            r == self.in_bounds(x as int, y as int),
    {
        x < self.cols() && y < self.rows()
    }

    pub fn tile(&self, x: usize, y: usize) -> (t: Tile)
        requires
            self.wf(),
            self.in_bounds(x as int, y as int),
        ensures
            t == self.tile_at(x as int, y as int),
    {
        self.tiles[y][x]
    }

    /// Replace the tile at `(x, y)`, leaving every other tile as it was.
    pub(crate) fn set_tile(&mut self, x: usize, y: usize, t: Tile)
        requires
            old(self).wf(),
            old(self).in_bounds(x as int, y as int),
        ensures
            final(self).wf(),
            final(self).same_dims(*old(self)),
            final(self).tiles@.len() == old(self).tiles@.len(),
            forall|j: int|
                0 <= j < old(self).tiles@.len() && j != y as int
                    ==> final(self).tiles@[j] == old(self).tiles@[j],
            final(self).tiles@[y as int]@ == old(self).tiles@[y as int]@.update(x as int, t),
            final(self).tile_at(x as int, y as int) == t,
            forall|a: int, b: int|
                old(self).in_bounds(a, b) && !(a == x as int && b == y as int)
                    ==> final(self).tile_at(a, b) == old(self).tile_at(a, b),
    {
        let ghost g0 = self.tiles@;
        let mut row = self.tiles.remove(y);
        row[x] = t;
        self.tiles.insert(y, row);
        proof {
            assert(self.tiles@ =~= g0.update(y as int, self.tiles@[y as int]));
            assert(self.tiles@[y as int]@ =~= g0[y as int]@.update(x as int, t));
        }
    }

    /// Build an all-empty, all-hidden board of the given dimensions.
    pub(crate) fn new_blank(rows: u8, cols: u8) -> (b: Board)
        requires
            rows >= 1,
            cols >= 1,
        ensures
            b.wf(),
            b.rows_spec() == rows as int,
            b.cols_spec() == cols as int,
            b.all_hidden(),
            forall|x: int, y: int| b.in_bounds(x, y) ==> #[trigger] b.kind_at(x, y) is Empty,
            b.mine_count() == 0,
    {
        let mut tiles: Vec<Vec<Tile>> = Vec::new();
        let mut y: usize = 0;
        while y < rows as usize
            invariant
                y <= rows as usize,
                tiles@.len() == y,
                forall|j: int| 0 <= j < y ==> (#[trigger] tiles@[j])@.len() == cols as int,
                forall|j: int, i: int|
                    0 <= j < y && 0 <= i < cols as int ==> (#[trigger] tiles@[j]@[i]) == (Tile {
                        tile_type: TileType::Empty,
                        state: TileState::Hidden,
                    }),
            decreases rows as usize - y,
        {
            let mut row: Vec<Tile> = Vec::new();
            let mut x: usize = 0;
            while x < cols as usize
                invariant
                    x <= cols as usize,
                    row@.len() == x,
                    forall|i: int|
                        0 <= i < x ==> (#[trigger] row@[i]) == (Tile {
                            tile_type: TileType::Empty,
                            state: TileState::Hidden,
                        }),
                decreases cols as usize - x,
            {
                row.push(Tile { tile_type: TileType::Empty, state: TileState::Hidden });
                x += 1;
            }
            tiles.push(row);
            y += 1;
        }
        let b = Board { tiles };
        proof {
            lemma_grid_count_zero(b.tiles@, mine_pred(), b.tiles@.len() as int);
        }
        b
    }

    /// Append `c` to a list of known-good neighbors of `(x, y)`.
    fn push_neighbor(&self, r: &mut Vec<(usize, usize)>, x: usize, y: usize, c: (usize, usize))
        requires
            self.neighbor_ok(x as int, y as int, c),
            forall|i: int|
                0 <= i < old(r)@.len() ==> self.neighbor_ok(
                    x as int,
                    y as int,
                    #[trigger] old(r)@[i],
                ),
        ensures
            final(r)@.len() == old(r)@.len() + 1,
            forall|i: int|
                0 <= i < final(r)@.len() ==> self.neighbor_ok(
                    x as int,
                    y as int,
                    #[trigger] final(r)@[i],
                ),
            forall|a: int, b: int|
                contains_coord(old(r)@, a, b) ==> contains_coord(final(r)@, a, b),
            contains_coord(final(r)@, c.0 as int, c.1 as int),
    {
        let ghost s0 = r@;
        r.push(c);
        proof {
            assert forall|a: int, b: int| contains_coord(s0, a, b) implies contains_coord(
                r@,
                a,
                b,
            ) by {
                let i = choose|i: int| 0 <= i < s0.len() && s0[i].0 == a && s0[i].1 == b;
                assert(r@[i] == s0[i]);
            }
            assert(r@[r@.len() - 1] == c);
        }
    }

    /// The in-bounds neighbors of `(x, y)`: every coordinate pair returned is
    /// one, and every in-bounds neighbor occurs in the returned list.
    pub fn loop_surrounding_tiles(&self, x: usize, y: usize) -> (r: Vec<(usize, usize)>)
        requires
            self.wf(),
            self.in_bounds(x as int, y as int),
        ensures
            r@.len() <= 8,
            forall|i: int|
                0 <= i < r@.len() ==> self.neighbor_ok(x as int, y as int, #[trigger] r@[i]),
            forall|a: int, b: int|
                self.in_bounds(a, b) && is_adjacent(a, b, x as int, y as int) ==> contains_coord(
                    r@,
                    a,
                    b,
                ),
    {
        let cols = self.cols();
        let rows = self.rows();
        let mut r: Vec<(usize, usize)> = Vec::new();
        if x > 0 && y > 0 {
            self.push_neighbor(&mut r, x, y, (x - 1, y - 1));
        }
        if y > 0 {
            self.push_neighbor(&mut r, x, y, (x, y - 1));
        }
        if x + 1 < cols && y > 0 {
            self.push_neighbor(&mut r, x, y, (x + 1, y - 1));
        }
        if x > 0 {
            self.push_neighbor(&mut r, x, y, (x - 1, y));
        }
        if x + 1 < cols {
            self.push_neighbor(&mut r, x, y, (x + 1, y));
        }
        if x > 0 && y + 1 < rows {
            self.push_neighbor(&mut r, x, y, (x - 1, y + 1));
        }
        if y + 1 < rows {
            self.push_neighbor(&mut r, x, y, (x, y + 1));
        }
        if x + 1 < cols && y + 1 < rows {
            self.push_neighbor(&mut r, x, y, (x + 1, y + 1));
        }
        proof {
            assert forall|a: int, b: int|
                self.in_bounds(a, b) && is_adjacent(a, b, x as int, y as int) implies contains_coord(
                r@,
                a,
                b,
            ) by {
                let xi = x as int;
                let yi = y as int;
                if a == xi - 1 && b == yi - 1 {
                    assert(contains_coord(r@, a, b));
                } else if a == xi && b == yi - 1 {
                    assert(contains_coord(r@, a, b));
                } else if a == xi + 1 && b == yi - 1 {
                    assert(contains_coord(r@, a, b));
                } else if a == xi - 1 && b == yi {
                    assert(contains_coord(r@, a, b));
                } else if a == xi + 1 && b == yi {
                    assert(contains_coord(r@, a, b));
                } else if a == xi - 1 && b == yi + 1 {
                    assert(contains_coord(r@, a, b));
                } else if a == xi && b == yi + 1 {
                    assert(contains_coord(r@, a, b));
                } else {
                    assert(a == xi + 1 && b == yi + 1);
                    assert(contains_coord(r@, a, b));
                }
            }
        }
        r
    }

    /// Count the mines among the neighbors of `(x, y)`.
    pub fn count_adjacent_mines(&self, x: usize, y: usize) -> (n: u32)
        requires
            self.wf(),
            self.in_bounds(x as int, y as int),
        ensures
            n as int == self.adj_mines(x as int, y as int),
            n <= 8,
    {
        let cols = self.cols();
        let rows = self.rows();
        let mut n: u32 = 0;
        if x > 0 && y > 0 && self.tile(x - 1, y - 1).tile_type == TileType::Mine {
            n += 1;
        }
        if y > 0 && self.tile(x, y - 1).tile_type == TileType::Mine {
            n += 1;
        }
        if x + 1 < cols && y > 0 && self.tile(x + 1, y - 1).tile_type == TileType::Mine {
            n += 1;
        }
        if x > 0 && self.tile(x - 1, y).tile_type == TileType::Mine {
            n += 1;
        }
        if x + 1 < cols && self.tile(x + 1, y).tile_type == TileType::Mine {
            n += 1;
        }
        if x > 0 && y + 1 < rows && self.tile(x - 1, y + 1).tile_type == TileType::Mine {
            n += 1;
        }
        if y + 1 < rows && self.tile(x, y + 1).tile_type == TileType::Mine {
            n += 1;
        }
        if x + 1 < cols && y + 1 < rows && self.tile(x + 1, y + 1).tile_type == TileType::Mine {
            n += 1;
        }
        n
    }

    /// Count the flagged tiles among the neighbors of `(x, y)`.
    #[verifier::rlimit(50)]
    pub fn count_adjacent_flags(&self, x: usize, y: usize) -> (n: u32)
        requires
            self.wf(),
            self.in_bounds(x as int, y as int),
        ensures
            n as int == self.adj_flags(x as int, y as int),
            n <= 8,
    {
        let cols = self.cols();
        let rows = self.rows();
        let mut n: u32 = 0;
        if x > 0 && y > 0 && self.tile(x - 1, y - 1).state == TileState::Flagged {
            n += 1;
        }
        if y > 0 && self.tile(x, y - 1).state == TileState::Flagged {
            n += 1;
        }
        if x + 1 < cols && y > 0 && self.tile(x + 1, y - 1).state == TileState::Flagged {
            n += 1;
        }
        if x > 0 && self.tile(x - 1, y).state == TileState::Flagged {
            n += 1;
        }
        if x + 1 < cols && self.tile(x + 1, y).state == TileState::Flagged {
            n += 1;
        }
        if x > 0 && y + 1 < rows && self.tile(x - 1, y + 1).state == TileState::Flagged {
            n += 1;
        }
        if y + 1 < rows && self.tile(x, y + 1).state == TileState::Flagged {
            n += 1;
        }
        if x + 1 < cols && y + 1 < rows && self.tile(x + 1, y + 1).state == TileState::Flagged {
            n += 1;
        }
        n
    }
}

} // verus!
