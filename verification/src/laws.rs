use vstd::prelude::*;

use crate::board::{free_pred, is_adjacent, mine_pred, Board};
use crate::counting::{grid_count, lemma_grid_count_partition};
use crate::engine::{
    chord_fires, is_seed, lemma_path_extend, lemma_reaches_self, lemma_target_empty, path_ok,
    reaches, reveal_target, state_after_reveal, state_after_toggle,
};
use crate::tile::Tile;

verus! {

/// `(tx, ty)` lies in the connected region of hidden empty tiles around
/// `(sx, sy)`: a flood path ends there and the tile itself is empty.
pub open spec fn empty_connected(b: Board, sx: int, sy: int, tx: int, ty: int) -> bool {
    b.kind_at(tx, ty) is Empty && reaches(b, sx, sy, tx, ty)
}

/// A mine next to `(ux, uy)` makes that tile's adjacent-mine count positive.
pub proof fn lemma_mine_neighbor_counts(b: Board, ux: int, uy: int, tx: int, ty: int)
    requires
        is_adjacent(tx, ty, ux, uy),
        b.is_mine_at(tx, ty),
    ensures
        b.adj_mines(ux, uy) >= 1,
{
    if tx == ux - 1 && ty == uy - 1 {
        assert(b.mine_ind(ux - 1, uy - 1) == 1);
    } else if tx == ux && ty == uy - 1 {
        assert(b.mine_ind(ux, uy - 1) == 1);
    } else if tx == ux + 1 && ty == uy - 1 {
        assert(b.mine_ind(ux + 1, uy - 1) == 1);
    } else if tx == ux - 1 && ty == uy {
        assert(b.mine_ind(ux - 1, uy) == 1);
    } else if tx == ux + 1 && ty == uy {
        assert(b.mine_ind(ux + 1, uy) == 1);
    } else if tx == ux - 1 && ty == uy + 1 {
        assert(b.mine_ind(ux - 1, uy + 1) == 1);
    } else if tx == ux && ty == uy + 1 {
        assert(b.mine_ind(ux, uy + 1) == 1);
    } else {
        assert(tx == ux + 1 && ty == uy + 1);
        assert(b.mine_ind(ux + 1, uy + 1) == 1);
    }
}

/// Revealing a hidden empty tile reveals exactly the connected region of
/// hidden empty tiles around it plus their hidden bordering tiles, and the
/// visibility of no mine changes.
pub proof fn lemma_reveal_empty_region(b: Board, x: int, y: int)
    requires
        b.wf(),
        b.counts_correct(),
        b.in_bounds(x, y),
        b.state_at(x, y) is Hidden,
        b.kind_at(x, y) is Empty,
    ensures
        forall|tx: int, ty: int|
            #![trigger reveal_target(b, x, y, false).contains((tx, ty))]
            reveal_target(b, x, y, false).contains((tx, ty)) <==> (empty_connected(b, x, y, tx, ty)
                || (b.in_bounds(tx, ty) && b.state_at(tx, ty) is Hidden && exists|ux: int, uy: int|
                #[trigger] is_adjacent(ux, uy, tx, ty) && empty_connected(b, x, y, ux, uy))),
        forall|tx: int, ty: int|
            #![trigger reveal_target(b, x, y, false).contains((tx, ty))]
            reveal_target(b, x, y, false).contains((tx, ty)) ==> !(b.kind_at(tx, ty) is Mine),
{
    assert(!chord_fires(b, x, y, false));
    assert forall|tx: int, ty: int|
        reveal_target(b, x, y, false).contains((tx, ty)) implies (empty_connected(b, x, y, tx, ty)
        || (b.in_bounds(tx, ty) && b.state_at(tx, ty) is Hidden && exists|ux: int, uy: int|
        #[trigger] is_adjacent(ux, uy, tx, ty) && empty_connected(b, x, y, ux, uy))) && !(
    b.kind_at(tx, ty) is Mine) by {
        let (sx, sy) = choose|sx: int, sy: int|
            is_seed(b, x, y, false, sx, sy) && reaches(b, sx, sy, tx, ty);
        assert(sx == x && sy == y);
        let p = choose|p: Seq<(int, int)>|
            path_ok(b, p) && p[0] == (sx, sy) && p.last() == (tx, ty);
        if p.len() == 1 {
            assert(p.last() == p[0]);
            assert(tx == x && ty == y);
            assert(empty_connected(b, x, y, tx, ty));
            assert(!(b.kind_at(tx, ty) is Mine));
        } else {
            let q = p.drop_last();
            assert forall|i: int|
                0 <= i < q.len() implies b.in_bounds((#[trigger] q[i]).0, q[i].1) && b.state_at(
                q[i].0,
                q[i].1,
            ) is Hidden by {
                assert(q[i] == p[i]);
            }
            assert forall|i: int|
                0 <= i < q.len() - 1 implies b.kind_at((#[trigger] q[i]).0, q[i].1) is Empty
                && is_adjacent(q[i].0, q[i].1, q[i + 1].0, q[i + 1].1) by {
                assert(q[i] == p[i]);
                assert(q[i + 1] == p[i + 1]);
            }
            assert(path_ok(b, q));
            let u = p[p.len() - 2];
            assert(q.last() == u);
            assert(q[0] == p[0]);
            assert(b.kind_at(u.0, u.1) is Empty);
            assert(reaches(b, x, y, u.0, u.1));
            assert(empty_connected(b, x, y, u.0, u.1));
            assert(is_adjacent(u.0, u.1, tx, ty));
            assert(b.in_bounds(tx, ty) && b.state_at(tx, ty) is Hidden);
            if b.kind_at(tx, ty) is Mine {
                assert(is_adjacent(tx, ty, u.0, u.1));
                lemma_mine_neighbor_counts(b, u.0, u.1, tx, ty);
                assert(b.adj_mines(u.0, u.1) >= 1);
                assert(false);
            }
            if b.kind_at(tx, ty) is Empty {
                assert(empty_connected(b, x, y, tx, ty));
            }
        }
    }
    assert forall|tx: int, ty: int|
        (empty_connected(b, x, y, tx, ty) || (b.in_bounds(tx, ty) && b.state_at(tx, ty) is Hidden
            && exists|ux: int, uy: int|
            #[trigger] is_adjacent(ux, uy, tx, ty) && empty_connected(
                b,
                x,
                y,
                ux,
                uy,
            ))) implies reveal_target(b, x, y, false).contains((tx, ty)) by {
        assert(is_seed(b, x, y, false, x, y));
        if empty_connected(b, x, y, tx, ty) {
            assert(reaches(b, x, y, tx, ty));
        } else {
            let (ux, uy) = choose|ux: int, uy: int|
                is_adjacent(ux, uy, tx, ty) && empty_connected(b, x, y, ux, uy);
            let p = choose|p: Seq<(int, int)>|
                path_ok(b, p) && p[0] == (x, y) && p.last() == (ux, uy);
            assert(p.last().0 == ux && p.last().1 == uy);
            lemma_path_extend(b, p, (tx, ty));
            assert(reaches(b, x, y, tx, ty));
        }
    }
}

/// Only hidden tiles are ever flipped by a reveal: a flagged tile is never
/// revealed, whatever tile the reveal starts from and whether it chords.
pub proof fn lemma_target_only_hidden(b: Board, x: int, y: int, chord: bool, a: int, bb: int)
    requires
        reveal_target(b, x, y, chord).contains((a, bb)),
    ensures
        b.in_bounds(a, bb),
        b.state_at(a, bb) is Hidden,
{
    let (sx, sy) = choose|sx: int, sy: int|
        is_seed(b, x, y, chord, sx, sy) && reaches(b, sx, sy, a, bb);
    let p = choose|p: Seq<(int, int)>| path_ok(b, p) && p[0] == (sx, sy) && p.last() == (a, bb);
    assert(p.last() == p[p.len() - 1]);
    assert(b.in_bounds(p[p.len() - 1].0, p[p.len() - 1].1));
}

/// A revealed tile stays revealed: neither a reveal nor a flag toggle moves
/// a tile out of the revealed state.
pub proof fn lemma_revealed_is_terminal(b: Board, x: int, y: int, chord: bool, a: int, bb: int)
    requires
        b.state_at(a, bb) is Revealed,
    ensures
        state_after_reveal(b, x, y, chord, a, bb) is Revealed,
        state_after_toggle(b, x, y, a, bb) is Revealed,
{
}

/// Revealing a flagged tile is a no-op: no tile enters the reveal target.
pub proof fn lemma_reveal_flagged_noop(b: Board, x: int, y: int, chord: bool)
    requires
        b.in_bounds(x, y),
        b.state_at(x, y) is Flagged,
    ensures
        forall|a: int, bb: int| !reveal_target(b, x, y, chord).contains((a, bb)),
{
    lemma_target_empty(b, x, y, chord);
}

/// Toggling the flag of a revealed tile changes no visibility at all.
pub proof fn lemma_toggle_revealed_noop(b: Board, x: int, y: int)
    requires
        b.in_bounds(x, y),
        b.state_at(x, y) is Revealed,
    ensures
        forall|a: int, bb: int| state_after_toggle(b, x, y, a, bb) == b.state_at(a, bb),
{
}

/// When a chord fires, every hidden neighbor of the chorded tile is
/// revealed by that one call.
pub proof fn lemma_chord_fires_reveals_neighbors(b: Board, x: int, y: int)
    requires
        chord_fires(b, x, y, true),
    ensures
        forall|c: int, d: int|
            b.in_bounds(c, d) && #[trigger] is_adjacent(c, d, x, y) && b.state_at(c, d) is Hidden
                ==> reveal_target(b, x, y, true).contains((c, d)),
{
    assert forall|c: int, d: int|
        b.in_bounds(c, d) && #[trigger] is_adjacent(c, d, x, y) && b.state_at(c, d)
            is Hidden implies reveal_target(b, x, y, true).contains((c, d)) by {
        lemma_reaches_self(b, c, d);
        assert(is_seed(b, x, y, true, c, d));
    }
}

/// A reveal on a revealed tile whose chord does not fire — the flagged
/// count falls short, the tile is not numbered, or no chord was asked for —
/// changes no visibility.
pub proof fn lemma_chord_short_noop(b: Board, x: int, y: int, chord: bool)
    requires
        b.in_bounds(x, y),
        b.state_at(x, y) is Revealed,
        !chord_fires(b, x, y, chord),
    ensures
        forall|a: int, bb: int| !reveal_target(b, x, y, chord).contains((a, bb)),
{
    lemma_target_empty(b, x, y, chord);
}

/// Mines and non-mines partition the board: exactly
/// rows·cols − mine_count() tiles hold no mine.
pub proof fn lemma_mines_partition(b: Board)
    requires
        b.wf(),
    ensures
        grid_count(b.tiles@, free_pred()) == b.rows_spec() * b.cols_spec() - b.mine_count(),
{
    assert(forall|t: Tile| #[trigger] (mine_pred())(t) == !(free_pred())(t));
    lemma_grid_count_partition(
        b.tiles@,
        mine_pred(),
        free_pred(),
        b.cols_spec(),
        b.rows_spec(),
    );
}

} // verus!
