use vstd::prelude::*;

use crate::tile::Tile;

verus! {

/// Number of tiles among the first `x` entries of `row` that satisfy `f`.
pub open spec fn row_count(row: Seq<Tile>, f: spec_fn(Tile) -> bool, x: int) -> int
    decreases x,
{
    if x <= 0 {
        0
    } else {
        row_count(row, f, x - 1) + if f(row[x - 1]) {
            1int
        } else {
            0int
        }
    }
}

/// Number of tiles in the first `y` rows of `grid` that satisfy `f`.
pub open spec fn grid_count_prefix(grid: Seq<Vec<Tile>>, f: spec_fn(Tile) -> bool, y: int) -> int
    decreases y,
{
    if y <= 0 {
        0
    } else {
        grid_count_prefix(grid, f, y - 1) + row_count(
            grid[y - 1]@,
            f,
            grid[y - 1]@.len() as int,
        )
    }
}

/// Number of tiles in the whole grid that satisfy `f`.
pub open spec fn grid_count(grid: Seq<Vec<Tile>>, f: spec_fn(Tile) -> bool) -> int {
    grid_count_prefix(grid, f, grid.len() as int)
}

pub proof fn lemma_row_count_bounds(row: Seq<Tile>, f: spec_fn(Tile) -> bool, x: int)
    requires
        0 <= x,
    ensures
        0 <= row_count(row, f, x) <= x,
    decreases x,
{
    if x > 0 {
        lemma_row_count_bounds(row, f, x - 1);
    }
}

pub proof fn lemma_row_count_congruent(
    r1: Seq<Tile>,
    r2: Seq<Tile>,
    f: spec_fn(Tile) -> bool,
    x: int,
)
    requires
        forall|i: int| 0 <= i < x ==> f(r1[i]) == f(r2[i]),
    ensures
        row_count(r1, f, x) == row_count(r2, f, x),
    decreases x,
{
    if x > 0 {
        lemma_row_count_congruent(r1, r2, f, x - 1);
    }
}

pub proof fn lemma_row_count_update(
    row: Seq<Tile>,
    f: spec_fn(Tile) -> bool,
    i: int,
    t: Tile,
    x: int,
)
    requires
        0 <= i < row.len(),
        0 <= x <= row.len(),
    ensures
        row_count(row.update(i, t), f, x) == row_count(row, f, x) + if i < x {
            (if f(t) {
                1int
            } else {
                0int
            }) - (if f(row[i]) {
                1int
            } else {
                0int
            })
        } else {
            0int
        },
    decreases x,
{
    if x > 0 {
        lemma_row_count_update(row, f, i, t, x - 1);
    }
}

pub proof fn lemma_grid_count_congruent(
    g1: Seq<Vec<Tile>>,
    g2: Seq<Vec<Tile>>,
    f: spec_fn(Tile) -> bool,
    y: int,
)
    requires
        forall|j: int| 0 <= j < y ==> g1[j]@.len() == g2[j]@.len(),
        forall|j: int, i: int| 0 <= j < y && 0 <= i < g1[j]@.len() ==> f(g1[j]@[i]) == f(g2[j]@[i]),
    ensures
        grid_count_prefix(g1, f, y) == grid_count_prefix(g2, f, y),
    decreases y,
{
    if y > 0 {
        lemma_grid_count_congruent(g1, g2, f, y - 1);
        lemma_row_count_congruent(g1[y - 1]@, g2[y - 1]@, f, g1[y - 1]@.len() as int);
    }
}

/// Replacing the single row `y0` changes a prefix count by the difference of
/// the two row counts, once the prefix reaches past that row.
pub proof fn lemma_grid_count_row_change(
    g1: Seq<Vec<Tile>>,
    g2: Seq<Vec<Tile>>,
    f: spec_fn(Tile) -> bool,
    y0: int,
    y: int,
)
    requires
        g1.len() == g2.len(),
        0 <= y0 < g1.len(),
        0 <= y <= g1.len(),
        forall|j: int| 0 <= j < g1.len() && j != y0 ==> g1[j] == g2[j],
    ensures
        grid_count_prefix(g2, f, y) == grid_count_prefix(g1, f, y) + if y0 < y {
            row_count(g2[y0]@, f, g2[y0]@.len() as int) - row_count(
                g1[y0]@,
                f,
                g1[y0]@.len() as int,
            )
        } else {
            0int
        },
    decreases y,
{
    if y > 0 {
        lemma_grid_count_row_change(g1, g2, f, y0, y - 1);
    }
}

pub proof fn lemma_row_count_partition(
    row: Seq<Tile>,
    f1: spec_fn(Tile) -> bool,
    f2: spec_fn(Tile) -> bool,
    x: int,
)
    requires
        forall|t: Tile| #[trigger] f1(t) == !f2(t),
        0 <= x,
    ensures
        row_count(row, f1, x) + row_count(row, f2, x) == x,
    decreases x,
{
    if x > 0 {
        lemma_row_count_partition(row, f1, f2, x - 1);
        assert(f1(row[x - 1]) == !f2(row[x - 1]));
    }
}

/// In a grid whose rows all have length `cols`, two complementary predicates
/// together count every tile of the first `y` rows.
pub proof fn lemma_grid_count_partition(
    grid: Seq<Vec<Tile>>,
    f1: spec_fn(Tile) -> bool,
    f2: spec_fn(Tile) -> bool,
    cols: int,
    y: int,
)
    requires
        forall|t: Tile| #[trigger] f1(t) == !f2(t),
        0 <= y <= grid.len(),
        forall|j: int| 0 <= j < grid.len() ==> grid[j]@.len() == cols,
    ensures
        grid_count_prefix(grid, f1, y) + grid_count_prefix(grid, f2, y) == y * cols,
    decreases y,
{
    if y > 0 {
        assert(grid[y - 1]@.len() == cols);
        lemma_grid_count_partition(grid, f1, f2, cols, y - 1);
        lemma_row_count_partition(grid[y - 1]@, f1, f2, cols);
        assert((y - 1) * cols + cols == y * cols) by (nonlinear_arith);
    } else {
        assert(0 * cols == 0) by (nonlinear_arith);
    }
}

pub proof fn lemma_row_count_zero(row: Seq<Tile>, f: spec_fn(Tile) -> bool, x: int)
    requires
        0 <= x <= row.len(),
        forall|i: int| 0 <= i < row.len() ==> !f(#[trigger] row[i]),
    ensures
        row_count(row, f, x) == 0,
    decreases x,
{
    if x > 0 {
        lemma_row_count_zero(row, f, x - 1);
    }
}

/// A grid none of whose tiles satisfies `f` counts zero.
pub proof fn lemma_grid_count_zero(grid: Seq<Vec<Tile>>, f: spec_fn(Tile) -> bool, y: int)
    requires
        0 <= y <= grid.len(),
        forall|j: int, i: int|
            0 <= j < grid.len() && 0 <= i < grid[j]@.len() ==> !f(#[trigger] grid[j]@[i]),
    ensures
        grid_count_prefix(grid, f, y) == 0,
    decreases y,
{
    if y > 0 {
        lemma_grid_count_zero(grid, f, y - 1);
        lemma_row_count_zero(grid[y - 1]@, f, grid[y - 1]@.len() as int);
    }
}

pub proof fn lemma_grid_count_bounds(grid: Seq<Vec<Tile>>, f: spec_fn(Tile) -> bool, y: int)
    requires
        0 <= y <= grid.len(),
    ensures
        0 <= grid_count_prefix(grid, f, y),
    decreases y,
{
    if y > 0 {
        lemma_grid_count_bounds(grid, f, y - 1);
        lemma_row_count_bounds(grid[y - 1]@, f, grid[y - 1]@.len() as int);
    }
}

} // verus!
