use vstd::prelude::*;

verus! {

/// A 9x9 grid of cell-filled flags, stored as a flat vector of 81 booleans.
/// The cell at column `x`, row `y` (both in `0..9`) lives at index `x * 9 + y`.
///
/// Boards are value data: every operation on them returns a fresh board and
/// leaves its input untouched, so divergent futures explored by the planner
/// never alias one another's grids.
#[derive(Debug)]
pub struct Board {
    pub cells: Vec<bool>,
}

/// The filled-flag of the cell at column `x`, row `y` of the grid `b`.
pub open spec fn cell_at(b: Seq<bool>, x: int, y: int) -> bool {
    b[x * 9 + y]
}

impl Board {
    /// A board is well formed when it holds exactly one flag per cell.
    pub open spec fn wf(&self) -> bool {
        self.cells@.len() == 81
    }

    /// The filled-flag of the cell at column `x`, row `y`.
    pub open spec fn cell(&self, x: int, y: int) -> bool {
        cell_at(self.cells@, x, y)
    }

    pub fn get(&self, x: i32, y: i32) -> (r: bool)
        requires
            self.wf(),
            0 <= x < 9,
            0 <= y < 9,
        ensures
            r == self.cell(x as int, y as int),
    {
        self.cells[(x * 9 + y) as usize]
    }

    pub fn set(&mut self, x: i32, y: i32, v: bool)
        requires
            old(self).wf(),
            0 <= x < 9,
            0 <= y < 9,
        ensures
            final(self).wf(),
            final(self).cell(x as int, y as int) == v,
            forall|a: int, b: int|
                0 <= a < 9 && 0 <= b < 9 && !(a == x && b == y) ==> final(self).cell(a, b) == old(
                    self,
                ).cell(a, b),
    {
        let i: usize = (x * 9 + y) as usize;
        self.cells[i] = v;
    }

    /// An independent copy of this board, cell for cell.
    pub fn duplicate(&self) -> (r: Board)
        requires
            self.wf(),
        ensures
            r.wf(),
            r.cells@ == self.cells@,
    {
        let cells = self.cells.clone();
        proof {
            assert forall|i: int| 0 <= i < 81 implies cells@[i] == self.cells@[i] by {
                assert(cloned::<bool>(self.cells@[i], cells@[i]));
            }
            assert(cells@ =~= self.cells@);
        }
        Board { cells }
    }
}

impl Default for Board {
    /// The empty board: every cell unfilled.
    fn default() -> (r: Board)
        ensures
            r.wf(),
            forall|x: int, y: int| 0 <= x < 9 && 0 <= y < 9 ==> !r.cell(x, y),
    {
        let cells = vec![false; 81];
        proof {
            assert forall|i: int| 0 <= i < 81 implies !cells@[i] by {
                assert(cloned::<bool>(false, cells@[i]));
            }
        }
        Board { cells }
    }
}

} // verus!
