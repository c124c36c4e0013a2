use minesweeper::{generate_board, with_mines, Board, BoardSetting, TileState, TileType};

fn count_mines(b: &Board) -> usize {
    let mut n = 0;
    for y in 0..b.rows() {
        for x in 0..b.cols() {
            if b.tile(x, y).tile_type == TileType::Mine {
                n += 1;
            }
        }
    }
    n
}

fn brute_force_adjacent_mines(b: &Board, x: usize, y: usize) -> u32 {
    let mut n = 0;
    for dy in -1i32..=1 {
        for dx in -1i32..=1 {
            if dx == 0 && dy == 0 {
                continue;
            }
            let nx = x as i32 + dx;
            let ny = y as i32 + dy;
            if nx >= 0 && ny >= 0 && (nx as usize) < b.cols() && (ny as usize) < b.rows() {
                if b.tile(nx as usize, ny as usize).tile_type == TileType::Mine {
                    n += 1;
                }
            }
        }
    }
    n
}

#[test]
fn settings_presets_are_valid() {
    let noob = BoardSetting::new(9, 9, 10).unwrap();
    assert_eq!(noob.rows, 9);
    assert_eq!(noob.cols, 9);
    assert_eq!(noob.mines, 10);
    assert!(BoardSetting::new(16, 16, 40).is_some());
    assert!(BoardSetting::new(16, 30, 99).is_some());
    assert!(BoardSetting::new(1, 1, 0).is_some());
}

#[test]
fn settings_reject_overfull_board() {
    // 90 mines do not fit on a 9x9 board of 81 cells
    assert!(BoardSetting::new(9, 9, 90).is_none());
    // a full board is rejected too: mines must stay below rows*cols
    assert!(BoardSetting::new(9, 9, 81).is_none());
    assert!(BoardSetting::new(0, 5, 0).is_none());
    assert!(BoardSetting::new(5, 0, 0).is_none());
}

#[test]
fn generate_places_exact_mine_count() {
    for (rows, cols, mines) in [(9u8, 9u8, 10u8), (16, 16, 40), (16, 30, 99), (4, 4, 0)] {
        let s = BoardSetting::new(rows, cols, mines).unwrap();
        let b = generate_board(&s);
        assert_eq!(b.rows(), rows as usize);
        assert_eq!(b.cols(), cols as usize);
        assert_eq!(count_mines(&b), mines as usize);
        let non_mines = b.rows() * b.cols() - count_mines(&b);
        assert_eq!(non_mines, rows as usize * cols as usize - mines as usize);
        for y in 0..b.rows() {
            for x in 0..b.cols() {
                assert_eq!(b.tile(x, y).state, TileState::Hidden);
            }
        }
    }
}

#[test]
fn generate_numbers_match_brute_force() {
    let s = BoardSetting::new(9, 9, 10).unwrap();
    let b = generate_board(&s);
    for y in 0..b.rows() {
        for x in 0..b.cols() {
            let t = b.tile(x, y);
            if t.tile_type == TileType::Mine {
                continue;
            }
            let n = brute_force_adjacent_mines(&b, x, y);
            if n == 0 {
                assert_eq!(t.tile_type, TileType::Empty);
            } else {
                assert_eq!(t.tile_type, TileType::Number(n));
            }
        }
    }
}

#[test]
fn hand_built_numbers_match_brute_force() {
    let grids: Vec<(u8, u8, Vec<(u8, u8)>)> = vec![
        (4, 4, vec![(0, 0), (2, 1), (3, 3)]),
        (3, 3, vec![(1, 1)]),
        (2, 5, vec![(0, 0), (1, 0), (0, 4)]),
        (5, 5, vec![]),
    ];
    for (cols, rows, mines) in grids {
        let b = with_mines(rows, cols, &mines).unwrap();
        assert_eq!(b.rows(), rows as usize);
        assert_eq!(b.cols(), cols as usize);
        assert_eq!(count_mines(&b), mines.len());
        for y in 0..b.rows() {
            for x in 0..b.cols() {
                let t = b.tile(x, y);
                let is_mine = mines.contains(&(x as u8, y as u8));
                assert_eq!(t.tile_type == TileType::Mine, is_mine);
                if !is_mine {
                    let n = brute_force_adjacent_mines(&b, x, y);
                    if n == 0 {
                        assert_eq!(t.tile_type, TileType::Empty);
                    } else {
                        assert_eq!(t.tile_type, TileType::Number(n));
                    }
                }
            }
        }
    }
}

#[test]
fn eight_mines_make_an_eight() {
    let mines: Vec<(u8, u8)> = vec![
        (0, 0),
        (1, 0),
        (2, 0),
        (0, 1),
        (2, 1),
        (0, 2),
        (1, 2),
        (2, 2),
    ];
    let b = with_mines(3, 3, &mines).unwrap();
    assert_eq!(b.tile(1, 1).tile_type, TileType::Number(8));
}

#[test]
fn surrounding_tiles_clip_at_edges() {
    let b = with_mines(3, 3, &vec![]).unwrap();
    let corner = b.loop_surrounding_tiles(0, 0);
    assert_eq!(corner.len(), 3);
    assert!(corner.contains(&(1, 0)));
    assert!(corner.contains(&(0, 1)));
    assert!(corner.contains(&(1, 1)));
    let edge = b.loop_surrounding_tiles(1, 0);
    assert_eq!(edge.len(), 5);
    let center = b.loop_surrounding_tiles(1, 1);
    assert_eq!(center.len(), 8);
}

#[test]
fn adjacent_mine_counts_match_kinds() {
    let b = with_mines(3, 3, &vec![(0, 0), (2, 2)]).unwrap();
    assert_eq!(b.count_adjacent_mines(1, 1), 2);
    assert_eq!(b.tile(1, 1).tile_type, TileType::Number(2));
    assert_eq!(b.count_adjacent_mines(2, 0), 0);
    assert_eq!(b.tile(2, 0).tile_type, TileType::Empty);
    assert_eq!(b.count_adjacent_mines(1, 0), 1);
}

#[test]
fn with_mines_rejects_bad_positions() {
    // out of range
    assert!(with_mines(3, 3, &vec![(3, 0)]).is_none());
    assert!(with_mines(3, 3, &vec![(0, 3)]).is_none());
    // repeated position
    assert!(with_mines(3, 3, &vec![(1, 1), (1, 1)]).is_none());
    // dimensions of zero
    assert!(with_mines(0, 3, &vec![]).is_none());
    assert!(with_mines(3, 0, &vec![]).is_none());
    // a full board of mines is fine here; only positions are checked
    assert!(with_mines(1, 1, &vec![(0, 0)]).is_some());
}
