use vstd::prelude::*;

use rand::Rng;

use crate::board::{free_pred, mine_pred, Board};
use crate::counting::{
    grid_count, grid_count_prefix, lemma_grid_count_partition, lemma_grid_count_row_change,
    lemma_row_count_update, row_count,
};
use crate::settings::BoardSetting;
use crate::tile::{Tile, TileType};

verus! {

/// Relies on rand::Rng::gen_range over `0..n` on rand::thread_rng: it panics
/// only on an empty range, and returns a value of the range.
#[verifier::external_body]
fn random_below(n: u32) -> (r: u32)
    requires
        n >= 1,
    ensures
        r < n,
{
    rand::thread_rng().gen_range(0..n)
}

/// Walk the grid in row-major order and turn the `skip0`-th tile that is not
/// a mine into a mine, leaving every visibility state as it was.
fn place_nth_free(board: &mut Board, skip0: u32)
    requires
        old(board).wf(),
        (skip0 as int) < grid_count(old(board).tiles@, free_pred()),
    ensures
        final(board).wf(),
        final(board).same_dims(*old(board)),
        final(board).mine_count() == old(board).mine_count() + 1,
        forall|a: int, b: int|
            old(board).in_bounds(a, b) ==> final(board).state_at(a, b) == old(board).state_at(
                a,
                b,
            ),
        forall|a: int, b: int|
            old(board).in_bounds(a, b) ==> ((#[trigger] final(board).kind_at(a, b)) == old(
                board,
            ).kind_at(a, b) || (!(old(board).kind_at(a, b) is Mine) && final(board).kind_at(
                a,
                b,
            ) is Mine)),
        exists|px: int, py: int|
            #![trigger final(board).kind_at(px, py)]
            old(board).in_bounds(px, py) && !(old(board).kind_at(px, py) is Mine)
                && final(board).kind_at(px, py) is Mine
                && grid_count_prefix(old(board).tiles@, free_pred(), py)
                + row_count(old(board).tiles@[py]@, free_pred(), px) == skip0 as int,
{
    let rows = board.rows();
    let cols = board.cols();
    let mut skip = skip0;
    let mut y: usize = 0;
    while y < rows
        invariant
            *board == *old(board),
            board.wf(),
            rows == board.rows_spec(),
            cols == board.cols_spec(),
            y <= rows,
            skip <= skip0,
            skip0 - skip == grid_count_prefix(board.tiles@, free_pred(), y as int),
            (skip0 as int) < grid_count(board.tiles@, free_pred()),
        decreases rows - y,
    {
        let mut x: usize = 0;
        while x < cols
            invariant
                *board == *old(board),
                board.wf(),
                rows == board.rows_spec(),
                cols == board.cols_spec(),
                y < rows,
                x <= cols,
                skip <= skip0,
                skip0 - skip == grid_count_prefix(board.tiles@, free_pred(), y as int)
                    + row_count(board.tiles@[y as int]@, free_pred(), x as int),
                (skip0 as int) < grid_count(board.tiles@, free_pred()),
            decreases cols - x,
        {
            let t = board.tile(x, y);
            if !(t.tile_type == TileType::Mine) {
                if skip == 0 {
                    let ghost g0 = board.tiles@;
                    let newtile = Tile { tile_type: TileType::Mine, state: t.state };
                    board.set_tile(x, y, newtile);
                    proof {
                        lemma_row_count_update(
                            g0[y as int]@,
                            mine_pred(),
                            x as int,
                            newtile,
                            g0[y as int]@.len() as int,
                        );
                        lemma_grid_count_row_change(
                            g0,
                            board.tiles@,
                            mine_pred(),
                            y as int,
                            g0.len() as int,
                        );
                        assert(board.kind_at(x as int, y as int) is Mine);
                        assert(grid_count_prefix(old(board).tiles@, free_pred(), y as int)
                            + row_count(old(board).tiles@[y as int]@, free_pred(), x as int)
                            == skip0 as int);
                    }
                    return ;
                }
                skip -= 1;
            }
            x += 1;
        }
        y += 1;
    }
    proof {
        assert(false);
    }
}

/// Give every non-mine tile its exact adjacent-mine count: `Number(n)` when
/// `n` mines surround it, `Empty` when none does.
pub(crate) fn fill_numbers(board: &mut Board)
    requires
        old(board).wf(),
        forall|a: int, b: int|
            old(board).in_bounds(a, b) ==> ((#[trigger] old(board).kind_at(a, b)) is Empty || old(
                board,
            ).kind_at(a, b) is Mine),
    ensures
        final(board).wf(),
        final(board).same_dims(*old(board)),
        final(board).counts_correct(),
        forall|a: int, b: int|
            old(board).in_bounds(a, b) ==> final(board).state_at(a, b) == old(board).state_at(
                a,
                b,
            ),
        forall|a: int, b: int|
            old(board).in_bounds(a, b) ==> ((#[trigger] final(board).kind_at(a, b)) is Mine <==> old(
                board,
            ).kind_at(a, b) is Mine),
        final(board).mine_count() == old(board).mine_count(),
{
    let rows = board.rows();
    let cols = board.cols();
    let mut y: usize = 0;
    while y < rows
        invariant
            board.wf(),
            board.same_dims(*old(board)),
            old(board).wf(),
            rows == board.rows_spec(),
            cols == board.cols_spec(),
            y <= rows,
            forall|a: int, b: int|
                old(board).in_bounds(a, b) ==> board.state_at(a, b) == old(board).state_at(a, b),
            forall|a: int, b: int|
                #![trigger old(board).tile_at(a, b)]
                old(board).in_bounds(a, b) ==> (old(board).kind_at(a, b) is Empty || old(
                    board,
                ).kind_at(a, b) is Mine),
            forall|a: int, b: int|
                #![trigger board.tile_at(a, b)]
                old(board).in_bounds(a, b) ==> (board.kind_at(a, b) is Mine <==> old(
                    board,
                ).kind_at(a, b) is Mine),
            forall|a: int, b: int|
                #![trigger board.tile_at(a, b)]
                old(board).in_bounds(a, b) && b < y && !(old(board).kind_at(a, b) is Mine)
                    ==> board.kind_at(a, b) == (if old(board).adj_mines(a, b) == 0 {
                    TileType::Empty
                } else {
                    TileType::Number(old(board).adj_mines(a, b) as u32)
                }),
            forall|a: int, b: int|
                #![trigger board.tile_at(a, b)]
                old(board).in_bounds(a, b) && b >= y ==> board.kind_at(a, b) == old(
                    board,
                ).kind_at(a, b),
        decreases rows - y,
    {
        let mut x: usize = 0;
        while x < cols
            invariant
                board.wf(),
                board.same_dims(*old(board)),
                old(board).wf(),
                rows == board.rows_spec(),
                cols == board.cols_spec(),
                y < rows,
                x <= cols,
                forall|a: int, b: int|
                    old(board).in_bounds(a, b) ==> board.state_at(a, b) == old(board).state_at(
                        a,
                        b,
                    ),
                forall|a: int, b: int|
                    #![trigger old(board).tile_at(a, b)]
                    old(board).in_bounds(a, b) ==> (old(board).kind_at(a, b) is Empty || old(
                        board,
                    ).kind_at(a, b) is Mine),
                forall|a: int, b: int|
                    #![trigger board.tile_at(a, b)]
                    old(board).in_bounds(a, b) ==> (board.kind_at(a, b) is Mine <==> old(
                        board,
                    ).kind_at(a, b) is Mine),
                forall|a: int, b: int|
                    #![trigger board.tile_at(a, b)]
                    old(board).in_bounds(a, b) && (b < y || (b == y && a < x)) && !(old(
                        board,
                    ).kind_at(a, b) is Mine) ==> board.kind_at(a, b) == (if old(board).adj_mines(
                        a,
                        b,
                    ) == 0 {
                        TileType::Empty
                    } else {
                        TileType::Number(old(board).adj_mines(a, b) as u32)
                    }),
                forall|a: int, b: int|
                    #![trigger board.tile_at(a, b)]
                    old(board).in_bounds(a, b) && (b > y || (b == y && a >= x))
                        ==> board.kind_at(a, b) == old(board).kind_at(a, b),
            decreases cols - x,
        {
            let t = board.tile(x, y);
            if !(t.tile_type == TileType::Mine) {
                let c = board.count_adjacent_mines(x, y);
                proof {
                    lemma_adj_mines_congruent(*board, *old(board), x as int, y as int);
                }
                if c > 0 {
                    board.set_tile(x, y, Tile { tile_type: TileType::Number(c), state: t.state });
                }
            }
            x += 1;
        }
        y += 1;
    }
    proof {
        assert forall|a: int, b: int|
            board.in_bounds(a, b) && !(board.kind_at(a, b) is Mine) implies #[trigger] board.kind_at(
            a,
            b,
        ) == (if board.adj_mines(a, b) == 0 {
            TileType::Empty
        } else {
            TileType::Number(board.adj_mines(a, b) as u32)
        }) by {
            lemma_adj_mines_congruent(*board, *old(board), a, b);
        }
        assert forall|j: int, i: int|
            0 <= j < board.tiles@.len() && 0 <= i < board.tiles@[j]@.len() implies (mine_pred())(
            board.tiles@[j]@[i],
        ) == (mine_pred())(old(board).tiles@[j]@[i]) by {
            assert(board.tile_at(i, j) == board.tiles@[j]@[i]);
            assert(old(board).tile_at(i, j) == old(board).tiles@[j]@[i]);
        }
        crate::counting::lemma_grid_count_congruent(
            board.tiles@,
            old(board).tiles@,
            mine_pred(),
            board.tiles@.len() as int,
        );
    }
}

/// Two boards with the same mines in the same places agree on every
/// adjacent-mine count.
pub proof fn lemma_adj_mines_congruent(b1: Board, b2: Board, x: int, y: int)
    requires
        forall|a: int, b: int| #[trigger] b1.is_mine_at(a, b) == b2.is_mine_at(a, b),
    ensures
        b1.adj_mines(x, y) == b2.adj_mines(x, y),
{
}

/// Whether the coordinate `(a, b)` occurs among the first `n` entries of `ps`.
pub open spec fn pos_before(ps: Seq<(u8, u8)>, n: int, a: int, b: int) -> bool {
    exists|j: int| 0 <= j < n && ps[j].0 == a && ps[j].1 == b
}

/// Build a board with a mine exactly at each listed `(column, row)`
/// position, numbered and all hidden. Rejects dimensions of zero, a
/// position outside the board, and a repeated position.
pub fn with_mines(rows: u8, cols: u8, positions: &Vec<(u8, u8)>) -> (r: Option<Board>)
    ensures
        r is Some <==> (rows >= 1 && cols >= 1 && (forall|j: int|
            0 <= j < positions@.len() ==> (#[trigger] positions@[j]).0 < cols && positions@[j].1
                < rows) && (forall|j1: int, j2: int|
            0 <= j1 < j2 < positions@.len() ==> positions@[j1] != positions@[j2])),
        r matches Some(b) ==> {
            &&& b.wf()
            &&& b.rows_spec() == rows as int
            &&& b.cols_spec() == cols as int
            &&& b.all_hidden()
            &&& b.counts_correct()
            &&& forall|a: int, bb: int|
                #![trigger b.tile_at(a, bb)]
                b.in_bounds(a, bb) ==> (b.kind_at(a, bb) is Mine <==> pos_before(
                    positions@,
                    positions@.len() as int,
                    a,
                    bb,
                ))
            &&& b.mine_count() == positions@.len()
        },
{
    if rows < 1 || cols < 1 {
        return None;
    }
    let mut board = Board::new_blank(rows, cols);
    let mut i: usize = 0;
    while i < positions.len()
        invariant
            board.wf(),
            board.rows_spec() == rows as int,
            board.cols_spec() == cols as int,
            board.all_hidden(),
            rows >= 1,
            cols >= 1,
            i <= positions@.len(),
            forall|j: int|
                0 <= j < i ==> (#[trigger] positions@[j]).0 < cols && positions@[j].1 < rows,
            forall|j1: int, j2: int| 0 <= j1 < j2 < i ==> positions@[j1] != positions@[j2],
            forall|a: int, bb: int|
                #![trigger board.tile_at(a, bb)]
                board.in_bounds(a, bb) ==> (board.kind_at(a, bb) is Mine <==> pos_before(
                    positions@,
                    i as int,
                    a,
                    bb,
                )),
            forall|a: int, bb: int|
                #![trigger board.tile_at(a, bb)]
                board.in_bounds(a, bb) ==> (board.kind_at(a, bb) is Mine || board.kind_at(
                    a,
                    bb,
                ) is Empty),
            board.mine_count() == i as int,
        decreases positions@.len() - i,
    {
        let p = positions[i];
        let px = p.0;
        let py = p.1;
        if !(px < cols && py < rows) {
            return None;
        }
        let t = board.tile(px as usize, py as usize);
        if t.tile_type == TileType::Mine {
            proof {
                let j = choose|j: int|
                    0 <= j < i && positions@[j].0 == px as int && positions@[j].1 == py as int;
                assert(positions@[j] == positions@[i as int]);
            }
            return None;
        }
        let ghost gpre = board.tiles@;
        let ghost bpre = board;
        let newt = Tile { tile_type: TileType::Mine, state: t.state };
        board.set_tile(px as usize, py as usize, newt);
        proof {
            assert forall|a: int, bb: int| board.in_bounds(a, bb) implies (
            #[trigger] board.state_at(a, bb)) is Hidden by {
                assert(bpre.state_at(a, bb) is Hidden);
            }
            lemma_row_count_update(
                gpre[py as int]@,
                mine_pred(),
                px as int,
                newt,
                gpre[py as int]@.len() as int,
            );
            lemma_grid_count_row_change(
                gpre,
                board.tiles@,
                mine_pred(),
                py as int,
                gpre.len() as int,
            );
            assert forall|a: int, bb: int|
                #![trigger board.tile_at(a, bb)]
                board.in_bounds(a, bb) implies (board.kind_at(a, bb) is Mine <==> pos_before(
                positions@,
                i as int + 1,
                a,
                bb,
            )) by {
                if a == px as int && bb == py as int {
                    assert(positions@[i as int].0 == a && positions@[i as int].1 == bb);
                } else {
                    if pos_before(positions@, i as int + 1, a, bb) {
                        let j = choose|j: int|
                            0 <= j < i as int + 1 && positions@[j].0 == a && positions@[j].1 == bb;
                        assert(j < i as int);
                        assert(pos_before(positions@, i as int, a, bb));
                    }
                }
            }
        }
        i += 1;
    }
    fill_numbers(&mut board);
    Some(board)
}

/// Build the board for `settings`: exactly `settings.mines` mines, placed
/// uniformly at random without replacement, every non-mine tile numbered
/// with its exact adjacent-mine count, and every tile hidden.
pub fn generate_board(settings: &BoardSetting) -> (b: Board)
    requires
        settings.valid(),
    ensures
        b.wf(),
        b.rows_spec() == settings.rows as int,
        b.cols_spec() == settings.cols as int,
        b.mine_count() == settings.mines as int,
        b.all_hidden(),
        b.counts_correct(),
{
    let mut board = Board::new_blank(settings.rows, settings.cols);
    let mut placed: u8 = 0;
    while placed < settings.mines
        invariant
            board.wf(),
            board.rows_spec() == settings.rows as int,
            board.cols_spec() == settings.cols as int,
            board.all_hidden(),
            forall|a: int, b: int|
                board.in_bounds(a, b) ==> ((#[trigger] board.kind_at(a, b)) is Empty
                    || board.kind_at(a, b) is Mine),
            board.mine_count() == placed as int,
            placed <= settings.mines,
            settings.valid(),
        decreases settings.mines as int - placed as int,
    {
        proof {
            assert(forall|t: Tile| #[trigger] (mine_pred())(t) == !(free_pred())(t));
            lemma_grid_count_partition(
                board.tiles@,
                mine_pred(),
                free_pred(),
                board.cols_spec(),
                board.rows_spec(),
            );
            assert((settings.rows as int) * (settings.cols as int) <= 255 * 255)
                by (nonlinear_arith)
                requires
                    settings.rows <= 255,
                    settings.cols <= 255,
            ;
        }
        let total: u32 = (settings.rows as u32) * (settings.cols as u32);
        let free: u32 = total - (placed as u32);
        let r = random_below(free);
        place_nth_free(&mut board, r);
        placed += 1;
    }
    fill_numbers(&mut board);
    board
}

} // verus!
