use vstd::prelude::*;

use crate::board::{cell_at, Board};
use crate::brick::{clone_brick, wf_offsets, xy, Brick, XY};
use crate::resolve::{resolve_board, resolve_model, units_cleared};

verus! {

/// Some cell of the brick, placed at `pos`, lands on the board cell `(x, y)`.
pub open spec fn covered(offs: Seq<XY>, pos: XY, x: int, y: int) -> bool {
    exists|j: int|
        0 <= j < offs.len() && pos.x + #[trigger] offs[j].x == x && pos.y + offs[j].y == y
}

/// The brick may be placed at `pos`: every one of its cells lands within the
/// 9x9 board, on a cell that is not already filled.
pub open spec fn spec_can_place(b: Seq<bool>, offs: Seq<XY>, pos: XY) -> bool {
    forall|j: int|
        0 <= j < offs.len() ==> 0 <= pos.x + #[trigger] offs[j].x < 9 && 0 <= pos.y + offs[j].y < 9
            && !cell_at(b, pos.x + offs[j].x, pos.y + offs[j].y)
}

/// Decides whether the brick may be placed at `pos`: false as soon as any
/// brick cell would land at a coordinate of 9 or more, or on an
/// already-filled cell; true otherwise.
pub fn can_put_brick(board: &Board, brick: &Brick, pos: &XY) -> (r: bool)
    requires
        board.wf(),
        wf_offsets(brick.offsets@),
        pos.x >= 0,
        pos.y >= 0,
        pos.x <= i32::MAX - 8,
        pos.y <= i32::MAX - 8,
    ensures
        r == spec_can_place(board.cells@, brick.offsets@, *pos),
{
    let ghost offs = brick.offsets@;
    let n = brick.offsets.len();
    let mut j: usize = 0;
    while j < n
        invariant
            0 <= j <= n,
            n == offs.len(),
            offs == brick.offsets@,
            board.wf(),
            wf_offsets(offs),
            pos.x >= 0,
            pos.y >= 0,
            pos.x <= i32::MAX - 8,
            pos.y <= i32::MAX - 8,
            forall|t: int|
                0 <= t < j ==> 0 <= pos.x + #[trigger] offs[t].x < 9 && 0 <= pos.y + offs[t].y < 9
                    && !cell_at(board.cells@, pos.x + offs[t].x, pos.y + offs[t].y),
        decreases n - j,
    {
        let off = brick.offsets[j];
        assert(0 <= offs[j as int].x <= 8);
        let cx = pos.x + off.x;
        let cy = pos.y + off.y;
        if cx > 8 || cy > 8 {
            return false;
        }
        if board.get(cx, cy) {
            return false;
        }
        j = j + 1;
    }
    true
}

/// Only the first `j` brick cells, placed at `pos`, land on `(x, y)`.
pub open spec fn covered_upto(offs: Seq<XY>, pos: XY, x: int, y: int, j: int) -> bool {
    exists|t: int| 0 <= t < j && pos.x + #[trigger] offs[t].x == x && pos.y + offs[t].y == y
}

/// The board after placing the brick at `pos`: a cell is filled when it was
/// filled before or some brick cell lands on it.
pub open spec fn place_model(b: Seq<bool>, offs: Seq<XY>, pos: XY) -> Seq<bool> {
    Seq::new(81, |k: int| b[k] || covered(offs, pos, k / 9, k % 9))
}

/// Returns a new board with every cell of the brick marked filled; the input
/// board is unmodified. The placement must already have been checked.
pub fn put_brick(board: &Board, brick: &Brick, pos: &XY) -> (r: Board)
    requires
        board.wf(),
        wf_offsets(brick.offsets@),
        spec_can_place(board.cells@, brick.offsets@, *pos),
    ensures
        r.wf(),
        forall|x: int, y: int|
            0 <= x < 9 && 0 <= y < 9 ==> r.cell(x, y) == (board.cell(x, y) || covered(
                brick.offsets@,
                *pos,
                x,
                y,
            )),
        r.cells@ == place_model(board.cells@, brick.offsets@, *pos),
{
    let ghost offs = brick.offsets@;
    let n = brick.offsets.len();
    let mut new_board = board.duplicate();
    let mut j: usize = 0;
    while j < n
        invariant
            0 <= j <= n,
            n == offs.len(),
            offs == brick.offsets@,
            board.wf(),
            new_board.wf(),
            spec_can_place(board.cells@, offs, *pos),
            forall|x: int, y: int|
                0 <= x < 9 && 0 <= y < 9 ==> new_board.cell(x, y) == (board.cell(x, y)
                    || covered_upto(offs, *pos, x, y, j as int)),
        decreases n - j,
    {
        let off = brick.offsets[j];
        assert(0 <= pos.x + offs[j as int].x < 9 && 0 <= pos.y + offs[j as int].y < 9);
        let cx = pos.x + off.x;
        let cy = pos.y + off.y;
        let ghost prev = new_board;
        new_board.set(cx, cy, true);
        proof {
            assert forall|x: int, y: int| 0 <= x < 9 && 0 <= y < 9 implies new_board.cell(x, y) == (
            board.cell(x, y) || covered_upto(offs, *pos, x, y, j + 1)) by {
                if x == cx && y == cy {
                    assert(pos.x + offs[j as int].x == x && pos.y + offs[j as int].y == y);
                    assert(covered_upto(offs, *pos, x, y, j + 1));
                } else {
                    assert(new_board.cell(x, y) == prev.cell(x, y));
                    if covered_upto(offs, *pos, x, y, j + 1) {
                        let t = choose|t: int|
                            0 <= t < j + 1 && pos.x + #[trigger] offs[t].x == x && pos.y + offs[t].y
                                == y;
                        assert(t != j);
                        assert(covered_upto(offs, *pos, x, y, j as int));
                    }
                }
            }
        }
        j = j + 1;
    }
    proof {
        assert forall|x: int, y: int| 0 <= x < 9 && 0 <= y < 9 implies covered_upto(
            offs,
            *pos,
            x,
            y,
            n as int,
        ) == covered(offs, *pos, x, y) by {
            if covered(offs, *pos, x, y) {
                let t = choose|t: int|
                    0 <= t < offs.len() && pos.x + #[trigger] offs[t].x == x && pos.y + offs[t].y
                        == y;
                assert(covered_upto(offs, *pos, x, y, n as int));
            }
        }
        assert forall|k: int| 0 <= k < 81 implies new_board.cells@[k] == place_model(
            board.cells@,
            offs,
            *pos,
        )[k] by {
            let x = k / 9;
            let y = k % 9;
            assert(0 <= x < 9 && 0 <= y < 9);
            assert(x * 9 + y == k);
            assert(new_board.cell(x, y) == (board.cell(x, y) || covered(offs, *pos, x, y)));
        }
        assert(new_board.cells@ =~= place_model(board.cells@, offs, *pos));
    }
    new_board
}

/// The position scanned `n`-th in the fixed row-major order: x = n / 9,
/// y = n % 9.
pub open spec fn scan_pos(n: int) -> XY {
    XY { x: (n / 9) as i32, y: (n % 9) as i32 }
}

/// The legal positions among the first `n` scanned, in scan order.
pub open spec fn legal_upto(b: Seq<bool>, offs: Seq<XY>, n: int) -> Seq<XY>
    decreases n,
{
    if n <= 0 {
        Seq::empty()
    } else if spec_can_place(b, offs, scan_pos(n - 1)) {
        legal_upto(b, offs, n - 1).push(scan_pos(n - 1))
    } else {
        legal_upto(b, offs, n - 1)
    }
}

/// Every position at which the brick may legally be placed, in the fixed
/// scan order (x ascending, then y ascending).
pub open spec fn legal_positions(b: Seq<bool>, offs: Seq<XY>) -> Seq<XY> {
    legal_upto(b, offs, 81)
}

/// Every listed position is a within-board position at which the brick may
/// be placed.
pub proof fn lemma_legal_upto_elems(b: Seq<bool>, offs: Seq<XY>, n: int)
    requires
        0 <= n <= 81,
    ensures
        forall|i: int|
            0 <= i < legal_upto(b, offs, n).len() ==> {
                let p = #[trigger] legal_upto(b, offs, n)[i];
                0 <= p.x < 9 && 0 <= p.y < 9 && spec_can_place(b, offs, p)
            },
    decreases n,
{
    if n > 0 {
        lemma_legal_upto_elems(b, offs, n - 1);
        let prev = legal_upto(b, offs, n - 1);
        let cur = legal_upto(b, offs, n);
        assert forall|i: int| 0 <= i < cur.len() implies {
            let p = #[trigger] cur[i];
            0 <= p.x < 9 && 0 <= p.y < 9 && spec_can_place(b, offs, p)
        } by {
            if spec_can_place(b, offs, scan_pos(n - 1)) {
                assert(cur == prev.push(scan_pos(n - 1)));
                if i < prev.len() {
                    assert(cur[i] == prev[i]);
                } else {
                    assert(cur[i] == scan_pos(n - 1));
                    assert(0 <= (n - 1) / 9 < 9 && 0 <= (n - 1) % 9 < 9);
                }
            } else {
                assert(cur == prev);
            }
        }
    }
}

/// Scans all 81 candidate positions in the fixed order and yields those at
/// which the brick may legally be placed.
pub fn possible_moves(board: &Board, brick: &Brick) -> (r: Vec<XY>)
    requires
        board.wf(),
        wf_offsets(brick.offsets@),
    ensures
        r@ == legal_positions(board.cells@, brick.offsets@),
{
    let ghost bseq = board.cells@;
    let ghost offs = brick.offsets@;
    let mut ret: Vec<XY> = Vec::new();
    let mut x: i32 = 0;
    while x < 9
        invariant
            0 <= x <= 9,
            board.wf(),
            wf_offsets(offs),
            bseq == board.cells@,
            offs == brick.offsets@,
            ret@ == legal_upto(bseq, offs, 9 * x as int),
        decreases 9 - x,
    {
        let mut y: i32 = 0;
        while y < 9
            invariant
                0 <= y <= 9,
                0 <= x < 9,
                board.wf(),
                wf_offsets(offs),
                bseq == board.cells@,
                offs == brick.offsets@,
                ret@ == legal_upto(bseq, offs, 9 * x + y as int),
            decreases 9 - y,
        {
            let pos = xy(x, y);
            proof {
                assert((9 * x + y) / 9 == x && (9 * x + y) % 9 == y);
                assert(scan_pos(9 * x + y as int) == pos);
            }
            if can_put_brick(board, brick, &pos) {
                ret.push(pos);
            }
            y = y + 1;
        }
        x = x + 1;
    }
    ret
}

/// A chosen placement: which brick of the current batch, and where its
/// origin goes.
#[derive(Copy, Clone, Debug, PartialEq, Eq, Structural)]
pub struct Move {
    /// 0-based index into the batch of available bricks.
    pub brick_index: i32,
    /// 0-based board position of the brick's (0, 0) offset.
    pub pos: XY,
}

/// The whole game position: the board, the batch of up to 3 available
/// bricks, the points total, and whether the previous move cleared at least
/// one unit.
#[derive(Debug)]
pub struct GameState {
    pub board: Board,
    pub available_bricks: Vec<Brick>,
    pub points: i32,
    pub last_move_was_match: bool,
}

/// The mathematical image of a game state: the grid as a flat sequence, the
/// batch as a sequence of offset sequences, the points, the streak flag.
pub struct StateModel {
    pub board: Seq<bool>,
    pub bricks: Seq<Seq<XY>>,
    pub points: int,
    pub streak: bool,
}

/// A model is well formed when the grid has 81 cells, the batch holds at
/// most 3 well-formed bricks, and the points total is non-negative.
pub open spec fn wf_model(s: StateModel) -> bool {
    &&& s.board.len() == 81
    &&& s.bricks.len() <= 3
    &&& forall|i: int| 0 <= i < s.bricks.len() ==> wf_offsets(#[trigger] s.bricks[i])
    &&& s.points >= 0
}

impl View for GameState {
    type V = StateModel;

    open spec fn view(&self) -> StateModel {
        StateModel {
            board: self.board.cells@,
            bricks: self.available_bricks@.map_values(|b: Brick| b.offsets@),
            points: self.points as int,
            streak: self.last_move_was_match,
        }
    }
}

impl GameState {
    pub open spec fn wf(&self) -> bool {
        wf_model(self@)
    }

    /// The starting state: empty board, no bricks yet, no points, no streak.
    pub fn new() -> (r: GameState)
        ensures
            r.wf(),
            r@.bricks.len() == 0,
            r@.points == 0,
            !r@.streak,
            forall|x: int, y: int| 0 <= x < 9 && 0 <= y < 9 ==> !#[trigger] cell_at(r@.board, x, y),
    {
        let r = GameState {
            board: Board::default(),
            points: 0,
            last_move_was_match: false,
            available_bricks: Vec::new(),
        };
        proof {
            assert(r@.bricks =~= Seq::<Seq<XY>>::empty());
            assert forall|x: int, y: int| 0 <= x < 9 && 0 <= y < 9 implies !#[trigger] cell_at(
                r@.board,
                x,
                y,
            ) by {
                assert(!r.board.cell(x, y));
            }
        }
        r
    }
}

/// How many cells are filled in `nb` but not in `ob`, among the first `k`.
pub open spec fn new_cells_upto(nb: Seq<bool>, ob: Seq<bool>, k: int) -> int
    decreases k,
{
    if k <= 0 {
        0
    } else {
        new_cells_upto(nb, ob, k - 1) + if nb[k - 1] && !ob[k - 1] {
            1int
        } else {
            0int
        }
    }
}

/// How many cells are filled in `nb` but not in `ob`.
pub open spec fn spec_new_cells(nb: Seq<bool>, ob: Seq<bool>) -> int {
    new_cells_upto(nb, ob, 81)
}

/// Counts the cells filled in `new_board` but not in `old_board`.
pub fn newly_filled_cells_count(new_board: &Board, old_board: &Board) -> (r: i32)
    requires
        new_board.wf(),
        old_board.wf(),
    ensures
        r == spec_new_cells(new_board.cells@, old_board.cells@),
        0 <= r <= 81,
{
    let ghost nb = new_board.cells@;
    let ghost ob = old_board.cells@;
    let mut r: i32 = 0;
    let mut x: i32 = 0;
    while x < 9
        invariant
            0 <= x <= 9,
            0 <= r <= 9 * x,
            new_board.wf(),
            old_board.wf(),
            nb == new_board.cells@,
            ob == old_board.cells@,
            r == new_cells_upto(nb, ob, 9 * x as int),
        decreases 9 - x,
    {
        let mut y: i32 = 0;
        while y < 9
            invariant
                0 <= y <= 9,
                0 <= x < 9,
                0 <= r <= 9 * x + y,
                new_board.wf(),
                old_board.wf(),
                nb == new_board.cells@,
                ob == old_board.cells@,
                r == new_cells_upto(nb, ob, 9 * x + y as int),
            decreases 9 - y,
        {
            proof {
                assert(cell_at(nb, x as int, y as int) == nb[9 * x + y]);
                assert(cell_at(ob, x as int, y as int) == ob[9 * x + y]);
            }
            if new_board.get(x, y) && !old_board.get(x, y) {
                r = r + 1;
            }
            y = y + 1;
        }
        x = x + 1;
    }
    r
}

/// How many of the first `k` cells are filled.
pub open spec fn filled_upto(b: Seq<bool>, k: int) -> int
    decreases k,
{
    if k <= 0 {
        0
    } else {
        filled_upto(b, k - 1) + if b[k - 1] {
            1int
        } else {
            0int
        }
    }
}

/// How many cells of the grid are filled.
pub open spec fn spec_filled(b: Seq<bool>) -> int {
    filled_upto(b, 81)
}

/// Counts the filled cells of the board.
pub fn count_filled_cells(board: &Board) -> (r: i32)
    requires
        board.wf(),
    ensures
        r == spec_filled(board.cells@),
        0 <= r <= 81,
{
    let ghost b = board.cells@;
    let mut r: i32 = 0;
    let mut k: usize = 0;
    while k < 81
        invariant
            0 <= k <= 81,
            0 <= r <= k,
            board.wf(),
            b == board.cells@,
            r == filled_upto(b, k as int),
        decreases 81 - k,
    {
        if board.cells[k] {
            r = r + 1;
        }
        k = k + 1;
    }
    r
}

/// The move names a brick of the batch and a placement that `can_put_brick`
/// accepts for it.
pub open spec fn valid_move(s: StateModel, m: Move) -> bool {
    &&& 0 <= m.brick_index < s.bricks.len()
    &&& m.pos.x >= 0
    &&& m.pos.y >= 0
    &&& spec_can_place(s.board, s.bricks[m.brick_index as int], m.pos)
}

/// What applying a valid move does: place the brick, clear every full unit
/// of the placed snapshot, remove the brick from the batch, and add
/// 18 points per cleared unit, a 9-point streak bonus when the previous move
/// also cleared, and 1 point per cell filled after the move that was not
/// filled before it.
pub open spec fn spec_perform(s: StateModel, m: Move) -> StateModel {
    let offs = s.bricks[m.brick_index as int];
    let placed = place_model(s.board, offs, m.pos);
    let resolved = resolve_model(placed);
    let u = units_cleared(placed);
    StateModel {
        board: resolved,
        bricks: s.bricks.remove(m.brick_index as int),
        points: s.points + 18 * u + (if s.streak && u > 0 {
            9int
        } else {
            0int
        }) + spec_new_cells(resolved, s.board),
        streak: u > 0,
    }
}

/// An independent copy of the batch, brick for brick.
fn clone_bricks(bricks: &Vec<Brick>) -> (r: Vec<Brick>)
    ensures
        r@.len() == bricks@.len(),
        forall|i: int| 0 <= i < r@.len() ==> (#[trigger] r@[i].offsets@) == bricks@[i].offsets@,
{
    let mut r: Vec<Brick> = Vec::new();
    let mut i: usize = 0;
    while i < bricks.len()
        invariant
            0 <= i <= bricks@.len(),
            r@.len() == i,
            forall|t: int| 0 <= t < i ==> (#[trigger] r@[t].offsets@) == bricks@[t].offsets@,
        decreases bricks@.len() - i,
    {
        r.push(clone_brick(&bricks[i]));
        i = i + 1;
    }
    r
}

/// Applies a fully validated move and returns the successor state; the input
/// state is unmodified. The points ceiling keeps the new total within `i32`.
pub fn perform_move(game_state: &GameState, m: &Move) -> (r: GameState)
    requires
        game_state.wf(),
        valid_move(game_state@, *m),
        game_state@.points + 576 <= i32::MAX,
    ensures
        r@ == spec_perform(game_state@, *m),
        r.wf(),
        r@.points <= game_state@.points + 576,
        r@.bricks.len() == game_state@.bricks.len() - 1,
{
    let ghost s = game_state@;
    let brick_index = m.brick_index as usize;
    let mut available_bricks = clone_bricks(&game_state.available_bricks);
    let brick = available_bricks.remove(brick_index);
    proof {
        assert(brick.offsets@ == s.bricks[m.brick_index as int]);
        assert(available_bricks@.map_values(|b: Brick| b.offsets@) =~= s.bricks.remove(
            m.brick_index as int,
        ));
    }
    let board = put_brick(&game_state.board, &brick, &m.pos);
    let ghost placed = board.cells@;
    let resolve_result = resolve_board(board);
    let board = resolve_result.board;

    let streak = game_state.last_move_was_match && resolve_result.blocks_removed > 0;
    let streak_points: i32 = if streak {
        9
    } else {
        0
    };
    let new_cells_points = newly_filled_cells_count(&board, &game_state.board);
    let bonus_points = resolve_result.blocks_removed * 18 + streak_points + new_cells_points;

    let r = GameState {
        board,
        points: game_state.points + bonus_points,
        last_move_was_match: resolve_result.blocks_removed > 0,
        available_bricks,
    };
    proof {
        assert(r@.bricks =~= spec_perform(s, *m).bricks);
    }
    r
}

/// A candidate placement found by enumeration: the brick itself together
/// with its batch index and target position.
#[derive(Debug)]
pub struct PossibleMove {
    pub brick: Brick,
    pub brick_index: i32,
    pub pos: XY,
}

impl From<PossibleMove> for Move {
    fn from(m: PossibleMove) -> (r: Self) {
        Move { pos: m.pos, brick_index: m.brick_index }
    }
}

impl vstd::std_specs::convert::FromSpecImpl<PossibleMove> for Move {
    open spec fn obeys_from_spec() -> bool {
        true
    }

    open spec fn from_spec(m: PossibleMove) -> Move {
        Move { pos: m.pos, brick_index: m.brick_index }
    }
}

/// The legal placements of batch brick `i`, each tagged with that index.
pub open spec fn brick_moves(s: StateModel, i: int) -> Seq<Move> {
    legal_positions(s.board, s.bricks[i]).map_values(
        |p: XY| Move { brick_index: i as i32, pos: p },
    )
}

/// The legal placements of the first `i` batch bricks, batch order first,
/// scan order within a brick.
pub open spec fn moves_upto(s: StateModel, i: int) -> Seq<Move>
    decreases i,
{
    if i <= 0 {
        Seq::empty()
    } else {
        moves_upto(s, i - 1) + brick_moves(s, i - 1)
    }
}

/// Every legal `(brick index, position)` pair of the state, in the fixed
/// deterministic order.
pub open spec fn all_moves(s: StateModel) -> Seq<Move> {
    moves_upto(s, s.bricks.len() as int)
}

/// Every enumerated move is a valid move of the state.
pub proof fn lemma_moves_upto_valid(s: StateModel, i: int)
    requires
        wf_model(s),
        0 <= i <= s.bricks.len(),
    ensures
        forall|t: int|
            0 <= t < moves_upto(s, i).len() ==> valid_move(s, #[trigger] moves_upto(s, i)[t]),
    decreases i,
{
    if i > 0 {
        lemma_moves_upto_valid(s, i - 1);
        lemma_legal_upto_elems(s.board, s.bricks[i - 1], 81);
        let prefix = moves_upto(s, i - 1);
        let tail = brick_moves(s, i - 1);
        assert forall|t: int| 0 <= t < moves_upto(s, i).len() implies valid_move(
            s,
            #[trigger] moves_upto(s, i)[t],
        ) by {
            if t < prefix.len() {
                assert(moves_upto(s, i)[t] == prefix[t]);
            } else {
                assert(moves_upto(s, i)[t] == tail[t - prefix.len()]);
                let p = legal_positions(s.board, s.bricks[i - 1])[t - prefix.len()];
                assert(tail[t - prefix.len()] == (Move { brick_index: (i - 1) as i32, pos: p }));
                assert(0 <= p.x < 9 && 0 <= p.y < 9 && spec_can_place(s.board, s.bricks[i - 1], p));
            }
        }
    }
}

/// Every enumerated move of a well-formed state is valid.
pub proof fn lemma_all_moves_valid(s: StateModel)
    requires
        wf_model(s),
    ensures
        forall|t: int|
            0 <= t < all_moves(s).len() ==> valid_move(s, #[trigger] all_moves(s)[t]),
{
    lemma_moves_upto_valid(s, s.bricks.len() as int);
}

/// Enumerates every legal `(brick, position)` pair across the whole batch,
/// in batch order, then scan order.
pub fn get_possible_moves(game_state: &GameState) -> (r: Vec<PossibleMove>)
    requires
        game_state.wf(),
    ensures
        r@.len() == all_moves(game_state@).len(),
        forall|t: int|
            0 <= t < r@.len() ==> {
                let m = all_moves(game_state@)[t];
                (#[trigger] r@[t].brick_index) == m.brick_index && r@[t].pos == m.pos
                    && r@[t].brick.offsets@ == game_state@.bricks[m.brick_index as int]
            },
{
    let ghost s = game_state@;
    let mut moves: Vec<PossibleMove> = Vec::new();
    let mut brick_index: usize = 0;
    while brick_index < game_state.available_bricks.len()
        invariant
            game_state.wf(),
            s == game_state@,
            0 <= brick_index <= s.bricks.len(),
            moves@.len() == moves_upto(s, brick_index as int).len(),
            forall|t: int|
                0 <= t < moves@.len() ==> {
                    let m = moves_upto(s, brick_index as int)[t];
                    (#[trigger] moves@[t].brick_index) == m.brick_index && moves@[t].pos == m.pos
                        && moves@[t].brick.offsets@ == s.bricks[m.brick_index as int]
                },
        decreases s.bricks.len() - brick_index,
    {
        let brick = &game_state.available_bricks[brick_index];
        proof {
            assert(brick.offsets@ == s.bricks[brick_index as int]);
        }
        let positions = possible_moves(&game_state.board, brick);
        let ghost prefix = moves_upto(s, brick_index as int);
        let ghost tail = brick_moves(s, brick_index as int);
        let mut p: usize = 0;
        while p < positions.len()
            invariant
                game_state.wf(),
                s == game_state@,
                0 <= brick_index < s.bricks.len(),
                0 <= p <= positions@.len(),
                brick == &game_state.available_bricks[brick_index as int],
                brick.offsets@ == s.bricks[brick_index as int],
                positions@ == legal_positions(s.board, s.bricks[brick_index as int]),
                prefix == moves_upto(s, brick_index as int),
                tail == brick_moves(s, brick_index as int),
                tail.len() == positions@.len(),
                moves@.len() == prefix.len() + p,
                forall|t: int|
                    0 <= t < moves@.len() ==> {
                        let m = (prefix + tail)[t];
                        (#[trigger] moves@[t].brick_index) == m.brick_index && moves@[t].pos
                            == m.pos && moves@[t].brick.offsets@ == s.bricks[m.brick_index as int]
                    },
        decreases positions@.len() - p,
        {
            let pos = positions[p];
            proof {
                assert(tail[p as int] == (Move {
                    brick_index: brick_index as i32,
                    pos: positions@[p as int],
                }));
                assert((prefix + tail)[prefix.len() + p] == tail[p as int]);
            }
            moves.push(
                PossibleMove {
                    brick: clone_brick(brick),
                    brick_index: brick_index as i32,
                    pos,
                },
            );
            p = p + 1;
        }
        proof {
            assert(moves_upto(s, brick_index + 1) == prefix + tail);
        }
        brick_index = brick_index + 1;
    }
    moves
}

} // verus!
