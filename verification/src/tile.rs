use vstd::prelude::*;

verus! {

/// What a tile holds, fixed at generation time: no mine and no adjacent
/// mine, a mine, or the count of mines among its neighbors (1 to 8).
#[derive(Clone, Copy, PartialEq, Eq, Structural, Debug)]
pub enum TileType {
    Empty,
    Mine,
    Number(u32),
}

/// What the player sees of a tile; the only part of a tile that play mutates.
#[derive(Clone, Copy, PartialEq, Eq, Structural, Debug)]
pub enum TileState {
    Hidden,
    Flagged,
    Revealed,
}

/// One cell of the board.
#[derive(Clone, Copy, PartialEq, Eq, Structural, Debug)]
pub struct Tile {
    pub tile_type: TileType,
    pub state: TileState,
}

} // verus!
