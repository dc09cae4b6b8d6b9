use vstd::prelude::*;

use crate::board::{cell_at, Board};

verus! {

/// Row `y` is full: all 9 cells with that y coordinate are filled.
pub open spec fn row_full(b: Seq<bool>, y: int) -> bool {
    forall|x: int| 0 <= x < 9 ==> #[trigger] cell_at(b, x, y)
}

/// Column `x` is full: all 9 cells with that x coordinate are filled.
pub open spec fn col_full(b: Seq<bool>, x: int) -> bool {
    forall|y: int| 0 <= y < 9 ==> #[trigger] cell_at(b, x, y)
}

/// The 3x3 block with block coordinates `(bx, by)` is full: all 9 of its
/// cells are filled.
pub open spec fn block_full(b: Seq<bool>, bx: int, by: int) -> bool {
    forall|x: int, y: int|
        3 * bx <= x < 3 * bx + 3 && 3 * by <= y < 3 * by + 3 ==> #[trigger] cell_at(b, x, y)
}

/// The cell at `(x, y)` belongs to at least one full unit of the snapshot
/// `b`: its row, its column, or its 3x3 block.
pub open spec fn spec_cleared(b: Seq<bool>, x: int, y: int) -> bool {
    row_full(b, y) || col_full(b, x) || block_full(b, x / 3, y / 3)
}

/// How many of the first `n` rows are full.
pub open spec fn full_rows_upto(b: Seq<bool>, n: int) -> int
    decreases n,
{
    if n <= 0 {
        0
    } else {
        full_rows_upto(b, n - 1) + if row_full(b, n - 1) {
            1int
        } else {
            0int
        }
    }
}

/// How many of the first `n` columns are full.
pub open spec fn full_cols_upto(b: Seq<bool>, n: int) -> int
    decreases n,
{
    if n <= 0 {
        0
    } else {
        full_cols_upto(b, n - 1) + if col_full(b, n - 1) {
            1int
        } else {
            0int
        }
    }
}

/// How many of the first `n` blocks are full, blocks ordered by block x, then
/// block y.
pub open spec fn full_blocks_upto(b: Seq<bool>, n: int) -> int
    decreases n,
{
    if n <= 0 {
        0
    } else {
        full_blocks_upto(b, n - 1) + if block_full(b, (n - 1) / 3, (n - 1) % 3) {
            1int
        } else {
            0int
        }
    }
}

/// The total number of full units — rows, columns and 3x3 blocks — of the
/// snapshot `b`. A cell may belong to several full units; each unit counts
/// once.
pub open spec fn units_cleared(b: Seq<bool>) -> int {
    full_rows_upto(b, 9) + full_cols_upto(b, 9) + full_blocks_upto(b, 9)
}

/// The grid after clearing: a cell stays filled exactly when it was filled
/// and belongs to no full unit of the snapshot `b`.
pub open spec fn resolve_model(b: Seq<bool>) -> Seq<bool> {
    Seq::new(81, |k: int| b[k] && !spec_cleared(b, k / 9, k % 9))
}

/// The outcome of resolving a board: the board with every full unit cleared,
/// and how many units were full.
pub struct ResolveResult {
    pub board: Board,
    pub blocks_removed: i32,
}

/// Clears every full row of the snapshot `base_board` out of
/// `resolved_board`, and says how many there were.
pub fn resolve_rows(base_board: &Board, resolved_board: &mut Board) -> (n: i32)
    requires
        base_board.wf(),
        old(resolved_board).wf(),
    ensures
        final(resolved_board).wf(),
        n == full_rows_upto(base_board.cells@, 9),
        0 <= n <= 9,
        forall|a: int, b: int|
            0 <= a < 9 && 0 <= b < 9 ==> final(resolved_board).cell(a, b) == (old(
                resolved_board,
            ).cell(a, b) && !row_full(base_board.cells@, b)),
{
    let ghost bseq = base_board.cells@;
    let ghost orig = resolved_board.cells@;
    let mut n: i32 = 0;
    let mut y: i32 = 0;
    while y < 9
        invariant
            0 <= y <= 9,
            0 <= n <= y,
            base_board.wf(),
            resolved_board.wf(),
            bseq == base_board.cells@,
            orig.len() == 81,
            n == full_rows_upto(bseq, y as int),
            forall|a: int, b: int|
                0 <= a < 9 && 0 <= b < 9 ==> resolved_board.cell(a, b) == (cell_at(orig, a, b) && !(
                b < y && row_full(bseq, b))),
        decreases 9 - y,
    {
        let mut full_row = true;
        let mut x: i32 = 0;
        while x < 9
            invariant
                0 <= x <= 9,
                0 <= y < 9,
                base_board.wf(),
                bseq == base_board.cells@,
                full_row == (forall|a: int| 0 <= a < x ==> #[trigger] cell_at(bseq, a, y as int)),
            decreases 9 - x,
        {
            if !base_board.get(x, y) {
                full_row = false;
            }
            x = x + 1;
        }
        assert(full_row == row_full(bseq, y as int));

        if full_row {
            n = n + 1;
            let mut x: i32 = 0;
            while x < 9
                invariant
                    0 <= x <= 9,
                    0 <= y < 9,
                    resolved_board.wf(),
                    orig.len() == 81,
                    forall|a: int, b: int|
                        0 <= a < 9 && 0 <= b < 9 && !(b == y && a < x)
                            ==> resolved_board.cell(a, b) == (cell_at(orig, a, b) && !(b < y
                            && row_full(bseq, b))),
                    forall|a: int|
                        0 <= a < x ==> !#[trigger] resolved_board.cell(a, y as int),
                decreases 9 - x,
            {
                resolved_board.set(x, y, false);
                x = x + 1;
            }
        }
        y = y + 1;
    }
    n
}

/// Clears every full column of the snapshot `base_board` out of
/// `resolved_board`, and says how many there were.
pub fn resolve_columns(base_board: &Board, resolved_board: &mut Board) -> (n: i32)
    requires
        base_board.wf(),
        old(resolved_board).wf(),
    ensures
        final(resolved_board).wf(),
        n == full_cols_upto(base_board.cells@, 9),
        0 <= n <= 9,
        forall|a: int, b: int|
            0 <= a < 9 && 0 <= b < 9 ==> final(resolved_board).cell(a, b) == (old(
                resolved_board,
            ).cell(a, b) && !col_full(base_board.cells@, a)),
{
    let ghost bseq = base_board.cells@;
    let ghost orig = resolved_board.cells@;
    let mut n: i32 = 0;
    let mut x: i32 = 0;
    while x < 9
        invariant
            0 <= x <= 9,
            0 <= n <= x,
            base_board.wf(),
            resolved_board.wf(),
            bseq == base_board.cells@,
            orig.len() == 81,
            n == full_cols_upto(bseq, x as int),
            forall|a: int, b: int|
                0 <= a < 9 && 0 <= b < 9 ==> resolved_board.cell(a, b) == (cell_at(orig, a, b) && !(
                a < x && col_full(bseq, a))),
        decreases 9 - x,
    {
        let mut full_col = true;
        let mut y: i32 = 0;
        while y < 9
            invariant
                0 <= y <= 9,
                0 <= x < 9,
                base_board.wf(),
                bseq == base_board.cells@,
                full_col == (forall|b: int| 0 <= b < y ==> #[trigger] cell_at(bseq, x as int, b)),
            decreases 9 - y,
        {
            if !base_board.get(x, y) {
                full_col = false;
            }
            y = y + 1;
        }
        assert(full_col == col_full(bseq, x as int));

        if full_col {
            n = n + 1;
            let mut y: i32 = 0;
            while y < 9
                invariant
                    0 <= y <= 9,
                    0 <= x < 9,
                    resolved_board.wf(),
                    orig.len() == 81,
                    forall|a: int, b: int|
                        0 <= a < 9 && 0 <= b < 9 && !(a == x && b < y)
                            ==> resolved_board.cell(a, b) == (cell_at(orig, a, b) && !(a < x
                            && col_full(bseq, a))),
                    forall|b: int|
                        0 <= b < y ==> !#[trigger] resolved_board.cell(x as int, b),
                decreases 9 - y,
            {
                resolved_board.set(x, y, false);
                y = y + 1;
            }
        }
        x = x + 1;
    }
    n
}

/// Clears every full 3x3 block of the snapshot `base_board` out of
/// `resolved_board`, and says how many there were.
pub fn resolve_blocks(base_board: &Board, resolved_board: &mut Board) -> (n: i32)
    requires
        base_board.wf(),
        old(resolved_board).wf(),
    ensures
        final(resolved_board).wf(),
        n == full_blocks_upto(base_board.cells@, 9),
        0 <= n <= 9,
        forall|a: int, b: int|
            0 <= a < 9 && 0 <= b < 9 ==> final(resolved_board).cell(a, b) == (old(
                resolved_board,
            ).cell(a, b) && !block_full(base_board.cells@, a / 3, b / 3)),
{
    let ghost bseq = base_board.cells@;
    let ghost orig = resolved_board.cells@;
    let mut n: i32 = 0;
    let mut block_x: i32 = 0;
    while block_x < 3
        invariant
            0 <= block_x <= 3,
            0 <= n <= 3 * block_x,
            base_board.wf(),
            resolved_board.wf(),
            bseq == base_board.cells@,
            orig.len() == 81,
            n == full_blocks_upto(bseq, 3 * block_x as int),
            forall|a: int, b: int|
                0 <= a < 9 && 0 <= b < 9 ==> resolved_board.cell(a, b) == (cell_at(orig, a, b) && !(
                a / 3 < block_x && block_full(bseq, a / 3, b / 3))),
        decreases 3 - block_x,
    {
        let mut block_y: i32 = 0;
        while block_y < 3
            invariant
                0 <= block_y <= 3,
                0 <= block_x < 3,
                0 <= n <= 3 * block_x + block_y,
                base_board.wf(),
                resolved_board.wf(),
                bseq == base_board.cells@,
                orig.len() == 81,
                n == full_blocks_upto(bseq, 3 * block_x + block_y as int),
                forall|a: int, b: int|
                    0 <= a < 9 && 0 <= b < 9 ==> resolved_board.cell(a, b) == (cell_at(orig, a, b)
                        && !((a / 3 < block_x || (a / 3 == block_x && b / 3 < block_y))
                        && block_full(bseq, a / 3, b / 3))),
            decreases 3 - block_y,
        {
            let mut full_block = true;
            let mut x: i32 = 0;
            while x < 3
                invariant
                    0 <= x <= 3,
                    0 <= block_x < 3,
                    0 <= block_y < 3,
                    base_board.wf(),
                    bseq == base_board.cells@,
                    full_block == (forall|i: int, j: int|
                        3 * block_x <= i < 3 * block_x + x && 3 * block_y <= j < 3 * block_y + 3
                            ==> #[trigger] cell_at(bseq, i, j)),
                decreases 3 - x,
            {
                let mut y: i32 = 0;
                while y < 3
                    invariant
                        0 <= y <= 3,
                        0 <= x < 3,
                        0 <= block_x < 3,
                        0 <= block_y < 3,
                        base_board.wf(),
                        bseq == base_board.cells@,
                        full_block == ((forall|i: int, j: int|
                            3 * block_x <= i < 3 * block_x + x && 3 * block_y <= j < 3 * block_y
                                + 3 ==> #[trigger] cell_at(bseq, i, j)) && (forall|j: int|
                            3 * block_y <= j < 3 * block_y + y ==> #[trigger] cell_at(
                                bseq,
                                3 * block_x + x,
                                j,
                            ))),
                    decreases 3 - y,
                {
                    if !base_board.get(block_x * 3 + x, block_y * 3 + y) {
                        full_block = false;
                    }
                    y = y + 1;
                }
                x = x + 1;
            }
            assert(full_block == block_full(bseq, block_x as int, block_y as int));

            let ghost start = resolved_board.cells@;
            if full_block {
                n = n + 1;
                let mut x: i32 = 0;
                while x < 3
                    invariant
                        0 <= x <= 3,
                        0 <= block_x < 3,
                        0 <= block_y < 3,
                        resolved_board.wf(),
                        start.len() == 81,
                        forall|a: int, b: int|
                            0 <= a < 9 && 0 <= b < 9 && !(3 * block_x <= a < 3 * block_x + x && 3
                                * block_y <= b < 3 * block_y + 3) ==> resolved_board.cell(a, b)
                                == cell_at(start, a, b),
                        forall|a: int, b: int|
                            0 <= a < 9 && 0 <= b < 9 && 3 * block_x <= a < 3 * block_x + x && 3
                                * block_y <= b < 3 * block_y + 3 ==> !resolved_board.cell(a, b),
                    decreases 3 - x,
                {
                    let mut y: i32 = 0;
                    while y < 3
                        invariant
                            0 <= y <= 3,
                            0 <= x < 3,
                            0 <= block_x < 3,
                            0 <= block_y < 3,
                            resolved_board.wf(),
                            start.len() == 81,
                            forall|a: int, b: int|
                                0 <= a < 9 && 0 <= b < 9 && !(3 * block_x <= a < 3 * block_x + x
                                    && 3 * block_y <= b < 3 * block_y + 3) && !(a == 3 * block_x + x
                                    && 3 * block_y <= b < 3 * block_y + y)
                                    ==> resolved_board.cell(a, b) == cell_at(start, a, b),
                            forall|a: int, b: int|
                                0 <= a < 9 && 0 <= b < 9 && ((3 * block_x <= a < 3 * block_x + x
                                    && 3 * block_y <= b < 3 * block_y + 3) || (a == 3 * block_x + x
                                    && 3 * block_y <= b < 3 * block_y + y))
                                    ==> !resolved_board.cell(a, b),
                        decreases 3 - y,
                    {
                        resolved_board.set(block_x * 3 + x, block_y * 3 + y, false);
                        y = y + 1;
                    }
                    x = x + 1;
                }
            }
            proof {
                assert forall|a: int, b: int| 0 <= a < 9 && 0 <= b < 9 implies resolved_board.cell(
                    a,
                    b,
                ) == (cell_at(orig, a, b) && !((a / 3 < block_x || (a / 3 == block_x && b / 3
                    < block_y + 1)) && block_full(bseq, a / 3, b / 3))) by {
                    if 3 * block_x <= a < 3 * block_x + 3 && 3 * block_y <= b < 3 * block_y + 3 {
                        assert(a / 3 == block_x && b / 3 == block_y);
                        if full_block {
                            assert(!resolved_board.cell(a, b));
                        } else {
                            assert(resolved_board.cell(a, b) == cell_at(start, a, b));
                        }
                    } else {
                        assert(!(a / 3 == block_x && b / 3 == block_y));
                        assert(resolved_board.cell(a, b) == cell_at(start, a, b));
                    }
                }
                assert((3 * block_x + block_y) / 3 == block_x && (3 * block_x + block_y) % 3
                    == block_y);
            }
            block_y = block_y + 1;
        }
        block_x = block_x + 1;
    }
    n
}

/// Detects and clears every full unit of `board`.
///
/// All three kinds of unit are judged against the same pre-clear snapshot: a
/// row clear never changes whether an overlapping column or block counts as
/// full. The result board has every cell of every full unit emptied — a cell
/// shared by several full units is simply emptied once — and every other
/// cell keeps its input value. `blocks_removed` is the total number of full
/// rows, columns and blocks.
pub fn resolve_board(board: Board) -> (r: ResolveResult)
    requires
        board.wf(),
    ensures
        r.board.wf(),
        r.blocks_removed == units_cleared(board.cells@),
        0 <= r.blocks_removed <= 27,
        forall|x: int, y: int|
            0 <= x < 9 && 0 <= y < 9 ==> r.board.cell(x, y) == (board.cell(x, y) && !spec_cleared(
                board.cells@,
                x,
                y,
            )),
        r.board.cells@ == resolve_model(board.cells@),
{
    let mut resolved_board = board.duplicate();
    let mut blocks_removed: i32 = 0;

    blocks_removed = blocks_removed + resolve_rows(&board, &mut resolved_board);
    blocks_removed = blocks_removed + resolve_columns(&board, &mut resolved_board);
    blocks_removed = blocks_removed + resolve_blocks(&board, &mut resolved_board);

    proof {
        assert forall|k: int| 0 <= k < 81 implies resolved_board.cells@[k] == resolve_model(
            board.cells@,
        )[k] by {
            let x = k / 9;
            let y = k % 9;
            assert(0 <= x < 9 && 0 <= y < 9);
            assert(x * 9 + y == k);
            assert(resolved_board.cell(x, y) == (board.cell(x, y) && !spec_cleared(
                board.cells@,
                x,
                y,
            )));
        }
        assert(resolved_board.cells@ =~= resolve_model(board.cells@));
    }

    ResolveResult { board: resolved_board, blocks_removed }
}

/// Resolving an all-empty board clears 0 units and leaves every cell as it
/// was: no unit is full, so the output of `resolve_board` equals its input.
pub proof fn lemma_resolve_empty_board(b: Seq<bool>)
    requires
        b.len() == 81,
        forall|x: int, y: int| 0 <= x < 9 && 0 <= y < 9 ==> !#[trigger] cell_at(b, x, y),
    ensures
        units_cleared(b) == 0,
        forall|x: int, y: int|
            0 <= x < 9 && 0 <= y < 9 ==> (#[trigger] cell_at(b, x, y) && !spec_cleared(b, x, y))
                == cell_at(b, x, y),
{
    assert forall|y: int| 0 <= y < 9 implies !row_full(b, y) by {
        assert(!cell_at(b, 0, y));
    }
    assert forall|x: int| 0 <= x < 9 implies !col_full(b, x) by {
        assert(!cell_at(b, x, 0));
    }
    assert forall|i: int, j: int| 0 <= i < 3 && 0 <= j < 3 implies !block_full(b, i, j) by {
        assert(!cell_at(b, 3 * i, 3 * j));
    }
    assert(units_cleared(b) == 0) by {
        reveal_with_fuel(full_rows_upto, 10);
        reveal_with_fuel(full_cols_upto, 10);
        reveal_with_fuel(full_blocks_upto, 10);
    }
}

/// Filling exactly one entire row and nothing else yields exactly 1 unit
/// cleared, and the cleared board is empty again.
pub proof fn lemma_resolve_single_row(b: Seq<bool>, r: int)
    requires
        b.len() == 81,
        0 <= r < 9,
        forall|x: int, y: int| 0 <= x < 9 && 0 <= y < 9 ==> #[trigger] cell_at(b, x, y) == (y == r),
    ensures
        units_cleared(b) == 1,
        forall|x: int, y: int|
            0 <= x < 9 && 0 <= y < 9 ==> !(#[trigger] cell_at(b, x, y) && !spec_cleared(b, x, y)),
{
    assert(row_full(b, r));
    assert forall|y: int| 0 <= y < 9 && y != r implies !row_full(b, y) by {
        assert(!cell_at(b, 0, y));
    }
    assert forall|x: int| 0 <= x < 9 implies !col_full(b, x) by {
        let y0: int = if r == 0 {
            1
        } else {
            0
        };
        assert(!cell_at(b, x, y0));
    }
    assert forall|i: int, j: int| 0 <= i < 3 && 0 <= j < 3 implies !block_full(b, i, j) by {
        let y0: int = if 3 * j <= r < 3 * j + 3 {
            if r == 3 * j {
                3 * j + 1
            } else {
                3 * j
            }
        } else {
            3 * j
        };
        assert(!cell_at(b, 3 * i, y0));
    }
    assert(units_cleared(b) == 1) by {
        reveal_with_fuel(full_rows_upto, 10);
        reveal_with_fuel(full_cols_upto, 10);
        reveal_with_fuel(full_blocks_upto, 10);
    }
}

/// Filling exactly one entire column and nothing else yields exactly 1 unit
/// cleared, and the cleared board is empty again.
pub proof fn lemma_resolve_single_column(b: Seq<bool>, c: int)
    requires
        b.len() == 81,
        0 <= c < 9,
        forall|x: int, y: int| 0 <= x < 9 && 0 <= y < 9 ==> #[trigger] cell_at(b, x, y) == (x == c),
    ensures
        units_cleared(b) == 1,
        forall|x: int, y: int|
            0 <= x < 9 && 0 <= y < 9 ==> !(#[trigger] cell_at(b, x, y) && !spec_cleared(b, x, y)),
{
    assert(col_full(b, c));
    assert forall|x: int| 0 <= x < 9 && x != c implies !col_full(b, x) by {
        assert(!cell_at(b, x, 0));
    }
    assert forall|y: int| 0 <= y < 9 implies !row_full(b, y) by {
        let x0: int = if c == 0 {
            1
        } else {
            0
        };
        assert(!cell_at(b, x0, y));
    }
    assert forall|i: int, j: int| 0 <= i < 3 && 0 <= j < 3 implies !block_full(b, i, j) by {
        let x0: int = if 3 * i <= c < 3 * i + 3 {
            if c == 3 * i {
                3 * i + 1
            } else {
                3 * i
            }
        } else {
            3 * i
        };
        assert(!cell_at(b, x0, 3 * j));
    }
    assert(units_cleared(b) == 1) by {
        reveal_with_fuel(full_rows_upto, 10);
        reveal_with_fuel(full_cols_upto, 10);
        reveal_with_fuel(full_blocks_upto, 10);
    }
}

/// Filling exactly one entire 3x3 block and nothing else yields exactly 1
/// unit cleared, and the cleared board is empty again.
pub proof fn lemma_resolve_single_block(b: Seq<bool>, bi: int, bj: int)
    requires
        b.len() == 81,
        0 <= bi < 3,
        0 <= bj < 3,
        forall|x: int, y: int|
            0 <= x < 9 && 0 <= y < 9 ==> #[trigger] cell_at(b, x, y) == (3 * bi <= x < 3 * bi + 3
                && 3 * bj <= y < 3 * bj + 3),
    ensures
        units_cleared(b) == 1,
        forall|x: int, y: int|
            0 <= x < 9 && 0 <= y < 9 ==> !(#[trigger] cell_at(b, x, y) && !spec_cleared(b, x, y)),
{
    assert(block_full(b, bi, bj));
    assert forall|i: int, j: int| 0 <= i < 3 && 0 <= j < 3 && !(i == bi && j == bj)
        implies !block_full(b, i, j) by {
        assert(!cell_at(b, 3 * i, 3 * j));
    }
    assert forall|y: int| 0 <= y < 9 implies !row_full(b, y) by {
        let x0: int = if bi == 0 {
            3
        } else {
            0
        };
        assert(!cell_at(b, x0, y));
    }
    assert forall|x: int| 0 <= x < 9 implies !col_full(b, x) by {
        let y0: int = if bj == 0 {
            3
        } else {
            0
        };
        assert(!cell_at(b, x, y0));
    }
    assert(units_cleared(b) == 1) by {
        reveal_with_fuel(full_rows_upto, 10);
        reveal_with_fuel(full_cols_upto, 10);
        reveal_with_fuel(full_blocks_upto, 10);
    }
}

} // verus!
