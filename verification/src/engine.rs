use vstd::prelude::*;

use crate::board::{contains_coord, hidden_pred, is_adjacent, Board};
use crate::counting::{
    lemma_grid_count_bounds, lemma_grid_count_row_change, lemma_row_count_update,
};
use crate::tile::{Tile, TileState, TileType};

verus! {

/// A flood path in `b`: every tile on it is in bounds and hidden,
/// consecutive tiles are neighbors, and every tile but the last is empty.
pub open spec fn path_ok(b: Board, p: Seq<(int, int)>) -> bool {
    &&& p.len() >= 1
    &&& forall|i: int|
        0 <= i < p.len() ==> b.in_bounds((#[trigger] p[i]).0, p[i].1) && b.state_at(
            p[i].0,
            p[i].1,
        ) is Hidden
    &&& forall|i: int|
        0 <= i < p.len() - 1 ==> b.kind_at((#[trigger] p[i]).0, p[i].1) is Empty && is_adjacent(
            p[i].0,
            p[i].1,
            p[i + 1].0,
            p[i + 1].1,
        )
}

/// `(tx, ty)` can be reached from `(sx, sy)` along a flood path: through
/// hidden empty tiles, ending on any hidden tile.
pub open spec fn reaches(b: Board, sx: int, sy: int, tx: int, ty: int) -> bool {
    exists|p: Seq<(int, int)>|
        path_ok(b, p) && p[0] == (sx, sy) && p.last() == (tx, ty)
}

/// A requested chord fires at `(x, y)`: the tile is revealed, numbered, and
/// at least as many of its neighbors are flagged as its number.
pub open spec fn chord_fires(b: Board, x: int, y: int, chord: bool) -> bool {
    &&& chord
    &&& b.in_bounds(x, y)
    &&& b.state_at(x, y) is Revealed
    &&& (b.kind_at(x, y) matches TileType::Number(n) && b.adj_flags(x, y) >= n)
}

/// The tiles a reveal at `(x, y)` starts from: each neighbor when a chord
/// fires, the tile itself otherwise.
pub open spec fn is_seed(b: Board, x: int, y: int, chord: bool, sx: int, sy: int) -> bool {
    if chord_fires(b, x, y, chord) {
        is_adjacent(sx, sy, x, y)
    } else {
        sx == x && sy == y
    }
}

/// Exactly the tiles that a reveal at `(x, y)` flips to revealed: those
/// reachable from a seed along a flood path.
pub open spec fn reveal_target(b: Board, x: int, y: int, chord: bool) -> Set<(int, int)> {
    Set::new(
        |t: (int, int)|
            exists|sx: int, sy: int|
                is_seed(b, x, y, chord, sx, sy) && #[trigger] reaches(b, sx, sy, t.0, t.1),
    )
}

/// The visibility of `(a, b)` after a reveal at `(x, y)` on board `b`.
pub open spec fn state_after_reveal(
    b: Board,
    x: int,
    y: int,
    chord: bool,
    a: int,
    bb: int,
) -> TileState {
    if reveal_target(b, x, y, chord).contains((a, bb)) {
        TileState::Revealed
    } else {
        b.state_at(a, bb)
    }
}

/// The visibility of `(a, b)` after a flag toggle at `(x, y)` on board `b`:
/// hidden and flagged swap, a revealed tile and every other tile keep theirs.
pub open spec fn state_after_toggle(b: Board, x: int, y: int, a: int, bb: int) -> TileState {
    if a == x && bb == y && b.in_bounds(x, y) {
        match b.state_at(x, y) {
            TileState::Hidden => TileState::Flagged,
            TileState::Flagged => TileState::Hidden,
            TileState::Revealed => TileState::Revealed,
        }
    } else {
        b.state_at(a, bb)
    }
}

/// No state of `cur` moved other than from hidden to revealed since `b0`.
pub open spec fn states_monotone(b0: Board, cur: Board) -> bool {
    forall|a: int, b: int|
        #![trigger cur.state_at(a, b)]
        b0.in_bounds(a, b) ==> (cur.state_at(a, b) == b0.state_at(a, b) || (cur.state_at(
            a,
            b,
        ) is Revealed && b0.state_at(a, b) is Hidden))
}

/// Around every newly revealed empty tile, each neighbor is on the worklist
/// `w` or no longer hidden.
pub open spec fn flood_closed_except(b0: Board, cur: Board, w: Seq<(usize, usize)>) -> bool {
    forall|a: int, b: int, c: int, d: int|
        #![trigger cur.state_at(a, b), cur.state_at(c, d)]
        b0.in_bounds(a, b) && cur.state_at(a, b) is Revealed && b0.state_at(a, b) is Hidden
            && b0.kind_at(a, b) is Empty && b0.in_bounds(c, d) && is_adjacent(a, b, c, d)
            ==> contains_coord(w, c, d) || !(cur.state_at(c, d) is Hidden)
}

pub proof fn lemma_reaches_self(b: Board, x: int, y: int)
    requires
        b.in_bounds(x, y),
        b.state_at(x, y) is Hidden,
    ensures
        reaches(b, x, y, x, y),
{
    let p: Seq<(int, int)> = seq![(x, y)];
    assert(path_ok(b, p));
    assert(p[0] == (x, y) && p.last() == (x, y));
}

/// A flood path whose last tile is empty extends to any hidden in-bounds
/// neighbor of that tile.
pub proof fn lemma_path_extend(b: Board, p: Seq<(int, int)>, v: (int, int))
    requires
        path_ok(b, p),
        b.kind_at(p.last().0, p.last().1) is Empty,
        is_adjacent(p.last().0, p.last().1, v.0, v.1),
        b.in_bounds(v.0, v.1),
        b.state_at(v.0, v.1) is Hidden,
    ensures
        path_ok(b, p.push(v)),
        p.push(v)[0] == p[0],
        p.push(v).last() == v,
{
    let q = p.push(v);
    assert(q.last() == v);
    assert forall|i: int| 0 <= i < q.len() implies b.in_bounds((#[trigger] q[i]).0, q[i].1)
        && b.state_at(q[i].0, q[i].1) is Hidden by {
        if i < p.len() {
            assert(q[i] == p[i]);
        } else {
            assert(q[i] == v);
        }
    }
    assert forall|i: int| 0 <= i < q.len() - 1 implies b.kind_at((#[trigger] q[i]).0, q[i].1)
        is Empty && is_adjacent(q[i].0, q[i].1, q[i + 1].0, q[i + 1].1) by {
        if i < p.len() - 1 {
            assert(q[i] == p[i]);
            assert(q[i + 1] == p[i + 1]);
        } else {
            assert(i == p.len() - 1);
            assert(q[i] == p[i]);
            assert(p[i] == p.last());
            assert(q[i + 1] == v);
        }
    }
}

/// When nothing can start a reveal at `(x, y)` — the tile is not hidden, or
/// is out of bounds, and no chord fires — no tile at all is revealed.
pub proof fn lemma_target_empty(b: Board, x: int, y: int, chord: bool)
    requires
        !(b.in_bounds(x, y) && b.state_at(x, y) is Hidden),
        !chord_fires(b, x, y, chord),
    ensures
        forall|a: int, bb: int| !reveal_target(b, x, y, chord).contains((a, bb)),
{
    assert forall|a: int, bb: int| !reveal_target(b, x, y, chord).contains((a, bb)) by {
        if reveal_target(b, x, y, chord).contains((a, bb)) {
            let (sx, sy) = choose|sx: int, sy: int|
                is_seed(b, x, y, chord, sx, sy) && reaches(b, sx, sy, a, bb);
            let p = choose|p: Seq<(int, int)>|
                path_ok(b, p) && p[0] == (sx, sy) && p.last() == (a, bb);
            assert(b.in_bounds(p[0].0, p[0].1) && b.state_at(p[0].0, p[0].1) is Hidden);
            assert(sx == x && sy == y);
            assert(false);
        }
    }
}

proof fn lemma_contains_drop_last(s: Seq<(usize, usize)>, a: int, b: int)
    requires
        contains_coord(s, a, b),
        s.len() > 0,
        !(s[s.len() - 1].0 == a && s[s.len() - 1].1 == b),
    ensures
        contains_coord(s.drop_last(), a, b),
{
    let i = choose|i: int| 0 <= i < s.len() && s[i].0 == a && s[i].1 == b;
    assert(i < s.len() - 1);
    assert(s.drop_last()[i] == s[i]);
}

proof fn lemma_contains_append_left(s1: Seq<(usize, usize)>, s2: Seq<(usize, usize)>, a: int, b: int)
    requires
        contains_coord(s1, a, b),
    ensures
        contains_coord(s1 + s2, a, b),
{
    let i = choose|i: int| 0 <= i < s1.len() && s1[i].0 == a && s1[i].1 == b;
    assert((s1 + s2)[i] == s1[i]);
}

proof fn lemma_contains_append_right(
    s1: Seq<(usize, usize)>,
    s2: Seq<(usize, usize)>,
    a: int,
    b: int,
)
    requires
        contains_coord(s2, a, b),
    ensures
        contains_coord(s1 + s2, a, b),
{
    let i = choose|i: int| 0 <= i < s2.len() && s2[i].0 == a && s2[i].1 == b;
    assert((s1 + s2)[s1.len() + i] == s2[i]);
}

/// Once the worklist is empty, every tile on a flood path out of a revealed
/// seed has been revealed: by induction along the path.
proof fn lemma_path_revealed(b0: Board, cur: Board, p: Seq<(int, int)>, i: int, w: Seq<(usize, usize)>)
    requires
        cur.same_dims(b0),
        forall|a: int, b: int|
            #![trigger cur.tile_at(a, b)]
            b0.in_bounds(a, b) ==> cur.kind_at(a, b) == b0.kind_at(a, b),
        states_monotone(b0, cur),
        flood_closed_except(b0, cur, w),
        w.len() == 0,
        path_ok(b0, p),
        cur.state_at(p[0].0, p[0].1) is Revealed,
        0 <= i < p.len(),
    ensures
        cur.state_at(p[i].0, p[i].1) is Revealed,
    decreases i,
{
    if i > 0 {
        lemma_path_revealed(b0, cur, p, i - 1, w);
        assert(b0.in_bounds(p[i - 1].0, p[i - 1].1) && b0.state_at(p[i - 1].0, p[i - 1].1)
            is Hidden);
        assert(b0.kind_at(p[i - 1].0, p[i - 1].1) is Empty && is_adjacent(
            p[i - 1].0,
            p[i - 1].1,
            p[i].0,
            p[i].1,
        ));
        assert(!contains_coord(w, p[i].0, p[i].1));
        assert(!(cur.state_at(p[i].0, p[i].1) is Hidden));
        assert(b0.state_at(p[i].0, p[i].1) is Hidden);
    }
}

/// Reveal at `(x, y)`. A hidden tile is revealed, flooding through empty
/// tiles; with `chord_requested`, a revealed numbered tile with at least as
/// many flagged neighbors as its number reveals all its neighbors the same
/// way. A flagged tile, a revealed tile without a firing chord, and a
/// coordinate outside the board are left alone.
pub fn reveal_tile(board: &mut Board, x: usize, y: usize, chord_requested: bool)
    requires
        old(board).wf(),
    ensures
        final(board).wf(),
        final(board).same_dims(*old(board)),
        forall|a: int, b: int|
            #![trigger final(board).tile_at(a, b)]
            old(board).in_bounds(a, b) ==> final(board).kind_at(a, b) == old(board).kind_at(a, b),
        forall|a: int, b: int|
            #![trigger final(board).tile_at(a, b)]
            old(board).in_bounds(a, b) ==> final(board).state_at(a, b) == state_after_reveal(
                *old(board),
                x as int,
                y as int,
                chord_requested,
                a,
                b,
            ),
{
    let ghost b0 = *old(board);
    let ghost target = reveal_target(b0, x as int, y as int, chord_requested);
    if !board.in_grid(x, y) {
        proof {
            lemma_target_empty(*board, x as int, y as int, chord_requested);
        }
        return ;
    }
    let t = board.tile(x, y);
    let mut work: Vec<(usize, usize)> = Vec::new();
    if t.state == TileState::Revealed {
        let mut fire = false;
        if chord_requested {
            if let TileType::Number(n) = t.tile_type {
                let flags = board.count_adjacent_flags(x, y);
                if flags >= n {
                    fire = true;
                }
            }
        }
        if !fire {
            proof {
                lemma_target_empty(*board, x as int, y as int, chord_requested);
            }
            return ;
        }
        work = board.loop_surrounding_tiles(x, y);
        proof {
            assert(chord_fires(b0, x as int, y as int, chord_requested));
            assert forall|i: int|
                0 <= i < work@.len() && b0.state_at(
                    (#[trigger] work@[i]).0 as int,
                    work@[i].1 as int,
                ) is Hidden implies target.contains(
                (work@[i].0 as int, work@[i].1 as int),
            ) by {
                let s = work@[i];
                lemma_reaches_self(b0, s.0 as int, s.1 as int);
                assert(is_seed(b0, x as int, y as int, chord_requested, s.0 as int, s.1 as int));
            }
        }
    } else if t.state == TileState::Flagged {
        proof {
            lemma_target_empty(*board, x as int, y as int, chord_requested);
        }
        return ;
    } else {
        work.push((x, y));
        proof {
            lemma_reaches_self(b0, x as int, y as int);
            assert(is_seed(b0, x as int, y as int, chord_requested, x as int, y as int));
            assert(target.contains((x as int, y as int)));
            assert(work@[0] == (x, y));
            assert(contains_coord(work@, x as int, y as int));
        }
    }
    while work.len() > 0
        invariant
            board.wf(),
            b0.wf(),
            board.same_dims(b0),
            b0 == *old(board),
            target == reveal_target(b0, x as int, y as int, chord_requested),
            forall|a: int, b: int|
                #![trigger board.tile_at(a, b)]
                b0.in_bounds(a, b) ==> board.kind_at(a, b) == b0.kind_at(a, b),
            forall|a: int, b: int|
                #![trigger board.tile_at(a, b)]
                b0.in_bounds(a, b) ==> (board.state_at(a, b) == b0.state_at(a, b) || (
                board.state_at(a, b) is Revealed && b0.state_at(a, b) is Hidden
                    && target.contains((a, b)))),
            forall|i: int|
                0 <= i < work@.len() ==> b0.in_bounds(
                    (#[trigger] work@[i]).0 as int,
                    work@[i].1 as int,
                ) && (b0.state_at(work@[i].0 as int, work@[i].1 as int) is Hidden
                    ==> target.contains((work@[i].0 as int, work@[i].1 as int))),
            flood_closed_except(b0, *board, work@),
            forall|sx: int, sy: int|
                #![trigger is_seed(b0, x as int, y as int, chord_requested, sx, sy)]
                is_seed(b0, x as int, y as int, chord_requested, sx, sy) && b0.in_bounds(sx, sy)
                    ==> contains_coord(work@, sx, sy) || !(board.state_at(sx, sy) is Hidden),
        decreases 9 * board.hidden_count() + work@.len(),
    {
        proof {
            lemma_grid_count_bounds(board.tiles@, hidden_pred(), board.tiles@.len() as int);
        }
        let ghost work_pre = work@;
        let ghost bpre = *board;
        let wopt = work.pop();
        let w = wopt.unwrap();
        proof {
            assert(w == work_pre[work_pre.len() - 1]);
            assert(work@ =~= work_pre.drop_last());
        }
        let tw = board.tile(w.0, w.1);
        if tw.state == TileState::Hidden {
            proof {
                assert(b0.state_at(w.0 as int, w.1 as int) is Hidden);
                assert(target.contains((w.0 as int, w.1 as int)));
            }
            let ghost gpre = board.tiles@;
            let newt = Tile { tile_type: tw.tile_type, state: TileState::Revealed };
            board.set_tile(w.0, w.1, newt);
            proof {
                lemma_row_count_update(
                    gpre[w.1 as int]@,
                    hidden_pred(),
                    w.0 as int,
                    newt,
                    gpre[w.1 as int]@.len() as int,
                );
                lemma_grid_count_row_change(
                    gpre,
                    board.tiles@,
                    hidden_pred(),
                    w.1 as int,
                    gpre.len() as int,
                );
                lemma_grid_count_bounds(board.tiles@, hidden_pred(), board.tiles@.len() as int);
            }
            if tw.tile_type == TileType::Empty {
                let mut neigh = board.loop_surrounding_tiles(w.0, w.1);
                let ghost neigh_s = neigh@;
                let ghost work_mid = work@;
                proof {
                    assert forall|i: int|
                        0 <= i < neigh_s.len() && b0.state_at(
                            (#[trigger] neigh_s[i]).0 as int,
                            neigh_s[i].1 as int,
                        ) is Hidden implies target.contains(
                        (neigh_s[i].0 as int, neigh_s[i].1 as int),
                    ) by {
                        let v = neigh_s[i];
                        let (sx, sy) = choose|sx: int, sy: int|
                            is_seed(b0, x as int, y as int, chord_requested, sx, sy) && reaches(
                                b0,
                                sx,
                                sy,
                                w.0 as int,
                                w.1 as int,
                            );
                        let p = choose|p: Seq<(int, int)>|
                            path_ok(b0, p) && p[0] == (sx, sy) && p.last() == (
                            w.0 as int,
                            w.1 as int,
                            );
                        lemma_path_extend(b0, p, (v.0 as int, v.1 as int));
                        assert(reaches(b0, sx, sy, v.0 as int, v.1 as int));
                    }
                }
                work.append(&mut neigh);
                proof {
                    assert forall|i: int|
                        0 <= i < work@.len() implies b0.in_bounds(
                        (#[trigger] work@[i]).0 as int,
                        work@[i].1 as int,
                    ) && (b0.state_at(work@[i].0 as int, work@[i].1 as int) is Hidden
                        ==> target.contains((work@[i].0 as int, work@[i].1 as int))) by {
                        if i < work_mid.len() {
                            assert(work@[i] == work_mid[i]);
                            assert(work_mid[i] == work_pre[i]);
                        } else {
                            assert(work@[i] == neigh_s[i - work_mid.len()]);
                        }
                    }
                    assert forall|a: int, b: int, c: int, d: int|
                        #![trigger board.state_at(a, b), board.state_at(c, d)]
                        b0.in_bounds(a, b) && board.state_at(a, b) is Revealed && b0.state_at(
                            a,
                            b,
                        ) is Hidden && b0.kind_at(a, b) is Empty && b0.in_bounds(c, d)
                            && is_adjacent(a, b, c, d) implies contains_coord(work@, c, d) || !(
                        board.state_at(c, d) is Hidden) by {
                        if a == w.0 as int && b == w.1 as int {
                            assert(board.in_bounds(c, d));
                            assert(is_adjacent(c, d, w.0 as int, w.1 as int));
                            assert(contains_coord(neigh_s, c, d));
                            lemma_contains_append_right(work_mid, neigh_s, c, d);
                        } else {
                            assert(bpre.state_at(a, b) is Revealed);
                            assert(contains_coord(work_pre, c, d) || !(bpre.state_at(c, d)
                                is Hidden));
                            if contains_coord(work_pre, c, d) {
                                if c == w.0 as int && d == w.1 as int {
                                    assert(board.state_at(c, d) is Revealed);
                                } else {
                                    lemma_contains_drop_last(work_pre, c, d);
                                    lemma_contains_append_left(work_mid, neigh_s, c, d);
                                }
                            }
                        }
                    }
                    assert forall|sx: int, sy: int|
                        is_seed(b0, x as int, y as int, chord_requested, sx, sy) && b0.in_bounds(
                            sx,
                            sy,
                        ) implies contains_coord(work@, sx, sy) || !(board.state_at(sx, sy)
                        is Hidden) by {
                        assert(contains_coord(work_pre, sx, sy) || !(bpre.state_at(sx, sy)
                            is Hidden));
                        if contains_coord(work_pre, sx, sy) {
                            if sx == w.0 as int && sy == w.1 as int {
                                assert(board.state_at(sx, sy) is Revealed);
                            } else {
                                lemma_contains_drop_last(work_pre, sx, sy);
                                lemma_contains_append_left(work_mid, neigh_s, sx, sy);
                            }
                        }
                    }
                }
            } else {
                proof {
                    assert forall|a: int, b: int, c: int, d: int|
                        #![trigger board.state_at(a, b), board.state_at(c, d)]
                        b0.in_bounds(a, b) && board.state_at(a, b) is Revealed && b0.state_at(
                            a,
                            b,
                        ) is Hidden && b0.kind_at(a, b) is Empty && b0.in_bounds(c, d)
                            && is_adjacent(a, b, c, d) implies contains_coord(work@, c, d) || !(
                        board.state_at(c, d) is Hidden) by {
                        if a == w.0 as int && b == w.1 as int {
                            assert(b0.kind_at(a, b) == bpre.kind_at(a, b));
                            assert(false);
                        } else {
                            assert(bpre.state_at(a, b) is Revealed);
                            assert(contains_coord(work_pre, c, d) || !(bpre.state_at(c, d)
                                is Hidden));
                            if contains_coord(work_pre, c, d) {
                                if c == w.0 as int && d == w.1 as int {
                                    assert(board.state_at(c, d) is Revealed);
                                } else {
                                    lemma_contains_drop_last(work_pre, c, d);
                                }
                            }
                        }
                    }
                    assert forall|sx: int, sy: int|
                        is_seed(b0, x as int, y as int, chord_requested, sx, sy) && b0.in_bounds(
                            sx,
                            sy,
                        ) implies contains_coord(work@, sx, sy) || !(board.state_at(sx, sy)
                        is Hidden) by {
                        assert(contains_coord(work_pre, sx, sy) || !(bpre.state_at(sx, sy)
                            is Hidden));
                        if contains_coord(work_pre, sx, sy) {
                            if sx == w.0 as int && sy == w.1 as int {
                                assert(board.state_at(sx, sy) is Revealed);
                            } else {
                                lemma_contains_drop_last(work_pre, sx, sy);
                            }
                        }
                    }
                }
            }
        } else {
            proof {
                assert forall|a: int, b: int, c: int, d: int|
                    #![trigger board.state_at(a, b), board.state_at(c, d)]
                    b0.in_bounds(a, b) && board.state_at(a, b) is Revealed && b0.state_at(a, b)
                        is Hidden && b0.kind_at(a, b) is Empty && b0.in_bounds(c, d)
                        && is_adjacent(a, b, c, d) implies contains_coord(work@, c, d) || !(
                    board.state_at(c, d) is Hidden) by {
                    assert(contains_coord(work_pre, c, d) || !(bpre.state_at(c, d) is Hidden));
                    if contains_coord(work_pre, c, d) {
                        if c == w.0 as int && d == w.1 as int {
                            assert(!(board.state_at(c, d) is Hidden));
                        } else {
                            lemma_contains_drop_last(work_pre, c, d);
                        }
                    }
                }
                assert forall|sx: int, sy: int|
                    is_seed(b0, x as int, y as int, chord_requested, sx, sy) && b0.in_bounds(
                        sx,
                        sy,
                    ) implies contains_coord(work@, sx, sy) || !(board.state_at(sx, sy)
                    is Hidden) by {
                    assert(contains_coord(work_pre, sx, sy) || !(bpre.state_at(sx, sy)
                        is Hidden));
                    if contains_coord(work_pre, sx, sy) {
                        if sx == w.0 as int && sy == w.1 as int {
                            assert(!(board.state_at(sx, sy) is Hidden));
                        } else {
                            lemma_contains_drop_last(work_pre, sx, sy);
                        }
                    }
                }
            }
        }
    }
    proof {
        assert forall|a: int, b: int|
            #![trigger board.tile_at(a, b)]
            b0.in_bounds(a, b) implies board.state_at(a, b) == state_after_reveal(
            b0,
            x as int,
            y as int,
            chord_requested,
            a,
            b,
        ) by {
            if target.contains((a, b)) {
                let (sx, sy) = choose|sx: int, sy: int|
                    is_seed(b0, x as int, y as int, chord_requested, sx, sy) && reaches(
                        b0,
                        sx,
                        sy,
                        a,
                        b,
                    );
                let p = choose|p: Seq<(int, int)>|
                    path_ok(b0, p) && p[0] == (sx, sy) && p.last() == (a, b);
                assert(b0.in_bounds(p[0].0, p[0].1) && b0.state_at(p[0].0, p[0].1) is Hidden);
                assert(is_seed(b0, x as int, y as int, chord_requested, p[0].0, p[0].1));
                assert(!contains_coord(work@, p[0].0, p[0].1));
                assert(board.state_at(p[0].0, p[0].1) is Revealed);
                assert(states_monotone(b0, *board));
                lemma_path_revealed(b0, *board, p, p.len() - 1, work@);
                assert(board.state_at(a, b) is Revealed);
            }
        }
    }
}

/// Toggle the flag at `(x, y)`: hidden and flagged swap; a revealed tile,
/// and a coordinate outside the board, are left alone.
pub fn toggle_flag(board: &mut Board, x: usize, y: usize)
    requires
        old(board).wf(),
    ensures
        final(board).wf(),
        final(board).same_dims(*old(board)),
        forall|a: int, b: int|
            #![trigger final(board).tile_at(a, b)]
            old(board).in_bounds(a, b) ==> final(board).kind_at(a, b) == old(board).kind_at(a, b),
        forall|a: int, b: int|
            #![trigger final(board).tile_at(a, b)]
            old(board).in_bounds(a, b) ==> final(board).state_at(a, b) == state_after_toggle(
                *old(board),
                x as int,
                y as int,
                a,
                b,
            ),
{
    if !board.in_grid(x, y) {
        return ;
    }
    let t = board.tile(x, y);
    match t.state {
        TileState::Hidden => {
            board.set_tile(x, y, Tile { tile_type: t.tile_type, state: TileState::Flagged });
        },
        TileState::Flagged => {
            board.set_tile(x, y, Tile { tile_type: t.tile_type, state: TileState::Hidden });
        },
        TileState::Revealed => {},
    }
}

/// Right click: on a revealed tile it attempts a chorded reveal, anywhere
/// else it toggles the flag. (The one fixed policy here: right-clicking a
/// revealed tile routes into the chord logic.)
pub fn right_click(board: &mut Board, x: usize, y: usize, chord_requested: bool)
    requires
        old(board).wf(),
    ensures
        final(board).wf(),
        final(board).same_dims(*old(board)),
        forall|a: int, b: int|
            #![trigger final(board).tile_at(a, b)]
            old(board).in_bounds(a, b) ==> final(board).kind_at(a, b) == old(board).kind_at(a, b),
        old(board).in_bounds(x as int, y as int) && old(board).state_at(x as int, y as int)
            is Revealed ==> forall|a: int, b: int|
            #![trigger final(board).tile_at(a, b)]
            old(board).in_bounds(a, b) ==> final(board).state_at(a, b) == state_after_reveal(
                *old(board),
                x as int,
                y as int,
                chord_requested,
                a,
                b,
            ),
        !(old(board).in_bounds(x as int, y as int) && old(board).state_at(x as int, y as int)
            is Revealed) ==> forall|a: int, b: int|
            #![trigger final(board).tile_at(a, b)]
            old(board).in_bounds(a, b) ==> final(board).state_at(a, b) == state_after_toggle(
                *old(board),
                x as int,
                y as int,
                a,
                b,
            ),
{
    if board.in_grid(x, y) {
        if board.tile(x, y).state == TileState::Revealed {
            reveal_tile(board, x, y, chord_requested);
        } else {
            toggle_flag(board, x, y);
        }
    }
}

/// The progress of a game as the board shows it.
#[derive(Clone, Copy, PartialEq, Eq, Structural, Debug)]
pub enum GameState {
    Playing,
    Won,
    Lost,
}

/// Some mine has been revealed: the loss condition.
pub open spec fn any_mine_revealed(b: Board) -> bool {
    exists|x: int, y: int|
        b.in_bounds(x, y) && (#[trigger] b.kind_at(x, y)) is Mine && b.state_at(x, y) is Revealed
}

/// Every tile that holds no mine has been revealed: the win condition.
pub open spec fn all_safe_revealed(b: Board) -> bool {
    forall|x: int, y: int|
        b.in_bounds(x, y) && !((#[trigger] b.kind_at(x, y)) is Mine) ==> b.state_at(
            x,
            y,
        ) is Revealed
}

/// Lost as soon as any mine is revealed; won once every non-mine tile is
/// revealed; playing otherwise.
pub fn game_state(board: &Board) -> (r: GameState)
    requires
        board.wf(),
    ensures
        r == (if any_mine_revealed(*board) {
            GameState::Lost
        } else if all_safe_revealed(*board) {
            GameState::Won
        } else {
            GameState::Playing
        }),
{
    let rows = board.rows();
    let cols = board.cols();
    let mut lost = false;
    let mut all_safe = true;
    let mut y: usize = 0;
    while y < rows
        invariant
            board.wf(),
            rows == board.rows_spec(),
            cols == board.cols_spec(),
            y <= rows,
            lost == exists|a: int, b: int|
                b < y && board.in_bounds(a, b) && (#[trigger] board.kind_at(a, b)) is Mine
                    && board.state_at(a, b) is Revealed,
            all_safe == forall|a: int, b: int|
                b < y && board.in_bounds(a, b) && !((#[trigger] board.kind_at(a, b)) is Mine)
                    ==> board.state_at(a, b) is Revealed,
        decreases rows - y,
    {
        let mut x: usize = 0;
        while x < cols
            invariant
                board.wf(),
                rows == board.rows_spec(),
                cols == board.cols_spec(),
                y < rows,
                x <= cols,
                lost == exists|a: int, b: int|
                    (b < y || (b == y && a < x)) && board.in_bounds(a, b) && (
                    #[trigger] board.kind_at(a, b)) is Mine && board.state_at(a, b) is Revealed,
                all_safe == forall|a: int, b: int|
                    (b < y || (b == y && a < x)) && board.in_bounds(a, b) && !((
                    #[trigger] board.kind_at(a, b)) is Mine) ==> board.state_at(a, b) is Revealed,
            decreases cols - x,
        {
            let t = board.tile(x, y);
            proof {
                assert(board.kind_at(x as int, y as int) == t.tile_type);
                assert(board.state_at(x as int, y as int) == t.state);
            }
            if t.tile_type == TileType::Mine {
                if t.state == TileState::Revealed {
                    lost = true;
                }
            } else {
                if !(t.state == TileState::Revealed) {
                    all_safe = false;
                }
            }
            x += 1;
        }
        y += 1;
    }
    if lost {
        GameState::Lost
    } else if all_safe {
        GameState::Won
    } else {
        GameState::Playing
    }
}

/// One tick's sampled pointer input, already mapped to tile coordinates:
/// which buttons were released this tick, and which were active (held or
/// released) for chord detection.
pub struct InputSnapshot {
    pub x: usize,
    pub y: usize,
    pub left_released: bool,
    pub right_released: bool,
    pub left_active: bool,
    pub right_active: bool,
}

/// Dispatch one tick of input: a released left button reveals, chording
/// when both buttons were active; otherwise a released right button chords
/// on a revealed tile and toggles a flag anywhere else; no release, no
/// change.
pub fn handle_click(board: &mut Board, input: &InputSnapshot)
    requires
        old(board).wf(),
    ensures
        final(board).wf(),
        final(board).same_dims(*old(board)),
        forall|a: int, b: int|
            #![trigger final(board).tile_at(a, b)]
            old(board).in_bounds(a, b) ==> final(board).kind_at(a, b) == old(board).kind_at(a, b),
        input.left_released ==> forall|a: int, b: int|
            #![trigger final(board).tile_at(a, b)]
            old(board).in_bounds(a, b) ==> final(board).state_at(a, b) == state_after_reveal(
                *old(board),
                input.x as int,
                input.y as int,
                input.left_active && input.right_active,
                a,
                b,
            ),
        !input.left_released && input.right_released && old(board).in_bounds(
            input.x as int,
            input.y as int,
        ) && old(board).state_at(input.x as int, input.y as int) is Revealed
            ==> forall|a: int, b: int|
            #![trigger final(board).tile_at(a, b)]
            old(board).in_bounds(a, b) ==> final(board).state_at(a, b) == state_after_reveal(
                *old(board),
                input.x as int,
                input.y as int,
                input.left_active && input.right_active,
                a,
                b,
            ),
        !input.left_released && input.right_released && !(old(board).in_bounds(
            input.x as int,
            input.y as int,
        ) && old(board).state_at(input.x as int, input.y as int) is Revealed)
            ==> forall|a: int, b: int|
            #![trigger final(board).tile_at(a, b)]
            old(board).in_bounds(a, b) ==> final(board).state_at(a, b) == state_after_toggle(
                *old(board),
                input.x as int,
                input.y as int,
                a,
                b,
            ),
        !input.left_released && !input.right_released ==> *final(board) == *old(board),
{
    if !input.left_released && !input.right_released {
        return ;
    }
    let both_down = input.left_active && input.right_active;
    if input.left_released {
        reveal_tile(board, input.x, input.y, both_down);
    } else {
        right_click(board, input.x, input.y, both_down);
    }
}

} // verus!
