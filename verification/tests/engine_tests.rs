use minesweeper::{
    game_state, handle_click, reveal_tile, right_click, toggle_flag, with_mines, Board, GameState,
    InputSnapshot, TileState, TileType,
};

fn states(b: &Board) -> Vec<TileState> {
    let mut v = Vec::new();
    for y in 0..b.rows() {
        for x in 0..b.cols() {
            v.push(b.tile(x, y).state);
        }
    }
    v
}

fn snapshot(x: usize, y: usize, left: bool, right: bool, both: bool) -> InputSnapshot {
    InputSnapshot {
        x,
        y,
        left_released: left,
        right_released: right,
        left_active: both || left,
        right_active: both || right,
    }
}

#[test]
fn reveal_floods_empty_region_and_border_only() {
    // one mine in the far corner; everything else is one empty region plus
    // its numbered border
    let mut b = with_mines(4, 4, &vec![(3, 3)]).unwrap();
    reveal_tile(&mut b, 0, 0, false);
    for y in 0..4 {
        for x in 0..4 {
            let t = b.tile(x, y);
            if x == 3 && y == 3 {
                assert_eq!(t.tile_type, TileType::Mine);
                assert_eq!(t.state, TileState::Hidden);
            } else {
                assert_eq!(t.state, TileState::Revealed);
            }
        }
    }
}

#[test]
fn flood_stops_at_flagged_empty_tile() {
    // a flagged tile is never revealed, even inside an empty region
    let mut b = with_mines(3, 3, &vec![]).unwrap();
    toggle_flag(&mut b, 1, 1);
    reveal_tile(&mut b, 0, 0, false);
    assert_eq!(b.tile(1, 1).state, TileState::Flagged);
    for y in 0..3 {
        for x in 0..3 {
            if !(x == 1 && y == 1) {
                assert_eq!(b.tile(x, y).state, TileState::Revealed);
            }
        }
    }
}

#[test]
fn reveal_flagged_tile_is_noop() {
    let mut b = with_mines(3, 3, &vec![(1, 1)]).unwrap();
    toggle_flag(&mut b, 0, 0);
    assert_eq!(b.tile(0, 0).state, TileState::Flagged);
    let before = states(&b);
    reveal_tile(&mut b, 0, 0, false);
    assert_eq!(b.tile(0, 0).state, TileState::Flagged);
    assert_eq!(states(&b), before);
}

#[test]
fn toggle_on_revealed_tile_is_noop() {
    let mut b = with_mines(3, 3, &vec![(1, 1)]).unwrap();
    reveal_tile(&mut b, 0, 0, false);
    assert_eq!(b.tile(0, 0).state, TileState::Revealed);
    let before = states(&b);
    toggle_flag(&mut b, 0, 0);
    assert_eq!(b.tile(0, 0).state, TileState::Revealed);
    assert_eq!(states(&b), before);
}

#[test]
fn toggle_swaps_hidden_and_flagged() {
    let mut b = with_mines(3, 3, &vec![(1, 1)]).unwrap();
    assert_eq!(b.tile(2, 2).state, TileState::Hidden);
    toggle_flag(&mut b, 2, 2);
    assert_eq!(b.tile(2, 2).state, TileState::Flagged);
    toggle_flag(&mut b, 2, 2);
    assert_eq!(b.tile(2, 2).state, TileState::Hidden);
}

#[test]
fn chord_with_enough_flags_reveals_neighbors() {
    let mut b = with_mines(3, 3, &vec![(0, 0)]).unwrap();
    assert_eq!(b.tile(1, 1).tile_type, TileType::Number(1));
    reveal_tile(&mut b, 1, 1, false);
    toggle_flag(&mut b, 0, 0);
    reveal_tile(&mut b, 1, 1, true);
    for y in 0..3 {
        for x in 0..3 {
            if x == 0 && y == 0 {
                assert_eq!(b.tile(x, y).state, TileState::Flagged);
            } else {
                assert_eq!(b.tile(x, y).state, TileState::Revealed);
            }
        }
    }
}

#[test]
fn chord_with_too_few_flags_changes_nothing() {
    let mut b = with_mines(3, 3, &vec![(0, 0)]).unwrap();
    reveal_tile(&mut b, 1, 1, false);
    let before = states(&b);
    // no flag set: 0 < 1, the chord must not fire
    reveal_tile(&mut b, 1, 1, true);
    assert_eq!(states(&b), before);
}

#[test]
fn chord_with_misplaced_flag_still_fires() {
    // the chord counts flags, not correct flags: a wrong flag satisfies it
    let mut b = with_mines(3, 3, &vec![(0, 0)]).unwrap();
    reveal_tile(&mut b, 1, 1, false);
    toggle_flag(&mut b, 2, 2);
    reveal_tile(&mut b, 1, 1, true);
    // the mine itself is among the revealed neighbors
    assert_eq!(b.tile(0, 0).state, TileState::Revealed);
    assert_eq!(b.tile(2, 2).state, TileState::Flagged);
}

#[test]
fn chord_on_empty_or_mine_tile_is_noop() {
    let mut b = with_mines(4, 4, &vec![(3, 3)]).unwrap();
    // a revealed mine: chording it must do nothing
    reveal_tile(&mut b, 3, 3, false);
    let before = states(&b);
    reveal_tile(&mut b, 3, 3, true);
    assert_eq!(states(&b), before);
}

#[test]
fn reveal_on_revealed_tile_is_idempotent() {
    let mut b = with_mines(3, 3, &vec![(1, 1)]).unwrap();
    reveal_tile(&mut b, 0, 0, false);
    let before = states(&b);
    reveal_tile(&mut b, 0, 0, false);
    assert_eq!(states(&b), before);
    // the same holds on a revealed mine
    reveal_tile(&mut b, 1, 1, false);
    let after_mine = states(&b);
    reveal_tile(&mut b, 1, 1, false);
    assert_eq!(states(&b), after_mine);
}

#[test]
fn single_mine_center_reveals_one_number_only() {
    // 3x3, mine at (1,1): every other tile is Number(1); revealing the
    // corner reveals only the corner, with no flood across the border
    let mut b = with_mines(3, 3, &vec![(1, 1)]).unwrap();
    for y in 0..3 {
        for x in 0..3 {
            if !(x == 1 && y == 1) {
                assert_eq!(b.tile(x, y).tile_type, TileType::Number(1));
            }
        }
    }
    reveal_tile(&mut b, 0, 0, false);
    for y in 0..3 {
        for x in 0..3 {
            let expected = if x == 0 && y == 0 {
                TileState::Revealed
            } else {
                TileState::Hidden
            };
            assert_eq!(b.tile(x, y).state, expected);
        }
    }
    assert_eq!(b.tile(0, 0).tile_type, TileType::Number(1));
}

#[test]
fn zero_mines_floods_whole_board_from_any_tile() {
    for (sx, sy) in [(0usize, 0usize), (3, 3), (1, 2), (2, 0)] {
        let mut b = with_mines(4, 4, &vec![]).unwrap();
        reveal_tile(&mut b, sx, sy, false);
        for y in 0..4 {
            for x in 0..4 {
                assert_eq!(b.tile(x, y).tile_type, TileType::Empty);
                assert_eq!(b.tile(x, y).state, TileState::Revealed);
            }
        }
    }
}

#[test]
fn out_of_bounds_clicks_are_noops() {
    let mut b = with_mines(3, 3, &vec![(1, 1)]).unwrap();
    let before = states(&b);
    reveal_tile(&mut b, 3, 0, false);
    reveal_tile(&mut b, 0, 3, false);
    reveal_tile(&mut b, 100, 100, true);
    toggle_flag(&mut b, 7, 7);
    right_click(&mut b, 9, 9, false);
    assert_eq!(states(&b), before);
}

#[test]
fn right_click_flags_hidden_and_chords_revealed() {
    let mut b = with_mines(3, 3, &vec![(0, 0)]).unwrap();
    // on a hidden tile: flag, then unflag
    right_click(&mut b, 2, 2, false);
    assert_eq!(b.tile(2, 2).state, TileState::Flagged);
    right_click(&mut b, 2, 2, false);
    assert_eq!(b.tile(2, 2).state, TileState::Hidden);
    // on a revealed numbered tile with a flagged neighbor: chord
    reveal_tile(&mut b, 1, 1, false);
    right_click(&mut b, 0, 0, false);
    assert_eq!(b.tile(0, 0).state, TileState::Flagged);
    right_click(&mut b, 1, 1, true);
    assert_eq!(b.tile(2, 2).state, TileState::Revealed);
    assert_eq!(b.tile(0, 0).state, TileState::Flagged);
}

#[test]
fn flag_counts_feed_the_chord() {
    let mut b = with_mines(3, 3, &vec![]).unwrap();
    toggle_flag(&mut b, 0, 0);
    toggle_flag(&mut b, 2, 1);
    assert_eq!(b.count_adjacent_flags(1, 1), 2);
    assert_eq!(b.count_adjacent_flags(0, 1), 1);
    assert_eq!(b.count_adjacent_flags(0, 2), 0);
    assert_eq!(b.count_adjacent_flags(2, 2), 1);
}

#[test]
fn smallest_board_works() {
    let mut b = with_mines(1, 1, &vec![]).unwrap();
    assert_eq!(b.rows(), 1);
    assert_eq!(b.cols(), 1);
    assert_eq!(game_state(&b), GameState::Playing);
    reveal_tile(&mut b, 0, 0, false);
    assert_eq!(b.tile(0, 0).state, TileState::Revealed);
    assert_eq!(game_state(&b), GameState::Won);
}

#[test]
fn game_state_tracks_win_and_loss() {
    let mut b = with_mines(3, 3, &vec![(1, 1)]).unwrap();
    assert_eq!(game_state(&b), GameState::Playing);
    for (x, y) in [(0, 0), (1, 0), (2, 0), (0, 1), (2, 1), (0, 2), (1, 2)] {
        reveal_tile(&mut b, x, y, false);
        assert_eq!(game_state(&b), GameState::Playing);
    }
    reveal_tile(&mut b, 2, 2, false);
    assert_eq!(game_state(&b), GameState::Won);

    let mut c = with_mines(3, 3, &vec![(1, 1)]).unwrap();
    reveal_tile(&mut c, 1, 1, false);
    assert_eq!(game_state(&c), GameState::Lost);
}

#[test]
fn handle_click_dispatches_left_and_right() {
    let mut b = with_mines(3, 3, &vec![(1, 1)]).unwrap();
    // no release: nothing happens
    handle_click(&mut b, &snapshot(0, 0, false, false, false));
    assert_eq!(b.tile(0, 0).state, TileState::Hidden);
    // left release reveals
    handle_click(&mut b, &snapshot(0, 0, true, false, false));
    assert_eq!(b.tile(0, 0).state, TileState::Revealed);
    // right release on a hidden tile flags it
    handle_click(&mut b, &snapshot(2, 2, false, true, false));
    assert_eq!(b.tile(2, 2).state, TileState::Flagged);
    // left release with both buttons active on a revealed number chords
    let mut c = with_mines(3, 3, &vec![(0, 0)]).unwrap();
    handle_click(&mut c, &snapshot(1, 1, true, false, false));
    handle_click(&mut c, &snapshot(0, 0, false, true, false));
    assert_eq!(c.tile(0, 0).state, TileState::Flagged);
    handle_click(&mut c, &snapshot(1, 1, true, false, true));
    assert_eq!(c.tile(2, 2).state, TileState::Revealed);
}
