use vstd::prelude::*;

verus! {

/// The configuration of one game: board dimensions and mine count.
#[derive(Clone, Copy, PartialEq, Eq, Structural, Debug)]
pub struct BoardSetting {
    pub rows: u8,
    pub cols: u8,
    pub mines: u8,
}

impl BoardSetting {
    /// At least one row and one column, and strictly fewer mines than cells.
    pub open spec fn valid(self) -> bool {
        self.rows >= 1 && self.cols >= 1 && (self.mines as int) < (self.rows as int) * (
        self.cols as int)
    }

    /// Accepts exactly the valid configurations; a mine count that would fill
    /// or overfill the board is rejected here, before any generation starts.
    pub fn new(rows: u8, cols: u8, mines: u8) -> (r: Option<BoardSetting>)
        ensures
            r is Some <==> (rows >= 1 && cols >= 1 && (mines as int) < (rows as int) * (
            cols as int)),
            r matches Some(s) ==> s == (BoardSetting { rows, cols, mines }),
    {
        proof {
            assert((rows as int) * (cols as int) <= 255 * 255) by (nonlinear_arith)
                requires
                    rows <= 255,
                    cols <= 255,
            ;
        }
        let cells: u32 = (rows as u32) * (cols as u32);
        if rows >= 1 && cols >= 1 && (mines as u32) < cells {
            Some(BoardSetting { rows, cols, mines })
        } else {
            None
        }
    }
}

} // verus!
