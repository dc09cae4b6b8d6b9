use vstd::prelude::*;

use crate::brick::clone_brick;
use crate::game::{
    all_moves, count_filled_cells, get_possible_moves, lemma_all_moves_valid, perform_move,
    spec_filled, spec_perform, valid_move, GameState, Move, PossibleMove, StateModel,
};

verus! {

/// The planning-horizon value of a state whose batch is used up: its points
/// minus 2 for every cell still filled, biasing the planner toward keeping
/// the board open for future draws.
pub open spec fn spec_leaf_score(s: StateModel) -> int {
    s.points - 2 * spec_filled(s.board)
}

/// The value the planner attributes to playing `m` in state `s`.
///
/// When the successor's batch is empty, the move is a leaf of this planning
/// horizon and scores the leaf heuristic. When the successor still holds
/// bricks but none has any legal placement, the move forces a game over and
/// scores the successor's points less a 1000-point penalty. Otherwise the
/// move is worth its best continuation: the score of the best move of the
/// successor state, propagated unchanged.
pub open spec fn spec_move_score(s: StateModel, m: Move) -> int
    decreases s.bricks.len(), 0int, 0int,
{
    if valid_move(s, m) {
        let s2 = spec_perform(s, m);
        if s2.bricks.len() == 0 {
            spec_leaf_score(s2)
        } else if all_moves(s2).len() == 0 {
            s2.points - 1000
        } else {
            spec_best_score(s2)
        }
    } else {
        0
    }
}

/// The index, among the first `n` enumerated moves, of the one the planner
/// picks: the move of maximal value, ties resolved to the last maximum
/// encountered.
pub open spec fn spec_best_idx_upto(s: StateModel, n: int) -> int
    decreases s.bricks.len(), 1int, n,
{
    if n <= 1 {
        0
    } else {
        let prev = spec_best_idx_upto(s, n - 1);
        if spec_move_score(s, all_moves(s)[n - 1]) >= spec_move_score(s, all_moves(s)[prev]) {
            n - 1
        } else {
            prev
        }
    }
}

/// The index of the move the planner picks among all enumerated moves.
pub open spec fn spec_chosen_idx(s: StateModel) -> int
    decreases s.bricks.len(), 2int, 0int,
{
    spec_best_idx_upto(s, all_moves(s).len() as int)
}

/// The value of the best move of state `s`.
pub open spec fn spec_best_score(s: StateModel) -> int
    decreases s.bricks.len(), 2int, 1int,
{
    spec_move_score(s, all_moves(s)[spec_chosen_idx(s)])
}

/// A candidate move together with the score the planner attributes to it.
#[derive(Debug)]
pub struct PossibleMoveScore {
    pub possible_move: PossibleMove,
    pub score: i32,
}

impl From<PossibleMoveScore> for Move {
    fn from(m: PossibleMoveScore) -> (r: Self) {
        Move { pos: m.possible_move.pos, brick_index: m.possible_move.brick_index }
    }
}

impl vstd::std_specs::convert::FromSpecImpl<PossibleMoveScore> for Move {
    open spec fn obeys_from_spec() -> bool {
        true
    }

    open spec fn from_spec(m: PossibleMoveScore) -> Move {
        Move { pos: m.possible_move.pos, brick_index: m.possible_move.brick_index }
    }
}

/// Chooses the next move by exhaustively enumerating every legal placement
/// of every batch brick, recursively evaluating each successor until the
/// batch is exhausted, and returning the move of maximal projected score —
/// ties going to the last maximum in enumeration order.
///
/// The caller must have checked that at least one legal move exists; the
/// points ceiling keeps every score of the at most 3-deep recursion within
/// `i32`.
#[verifier::loop_isolation(false)]
pub fn ai_move(game_state: &GameState) -> (r: PossibleMoveScore)
    requires
        game_state.wf(),
        game_state@.bricks.len() >= 1,
        all_moves(game_state@).len() > 0,
        game_state@.points + 576 * game_state@.bricks.len() <= i32::MAX,
    ensures
        r.score == spec_best_score(game_state@),
        ({
            let m = all_moves(game_state@)[spec_chosen_idx(game_state@)];
            &&& r.possible_move.brick_index == m.brick_index
            &&& r.possible_move.pos == m.pos
            &&& r.possible_move.brick.offsets@ == game_state@.bricks[m.brick_index as int]
        }),
    decreases game_state.available_bricks.len(),
{
    let ghost s = game_state@;
    proof {
        lemma_all_moves_valid(s);
    }
    let moves = get_possible_moves(game_state);

    let mut scored: Vec<PossibleMoveScore> = Vec::new();
    let mut idx: usize = 0;
    while idx < moves.len()
        invariant
            0 <= idx <= moves@.len(),
            scored@.len() == idx,
            forall|t: int|
                0 <= t < idx ==> {
                    let m = all_moves(s)[t];
                    &&& (#[trigger] scored@[t].score) == spec_move_score(s, m)
                    &&& scored@[t].possible_move.brick_index == m.brick_index
                    &&& scored@[t].possible_move.pos == m.pos
                    &&& scored@[t].possible_move.brick.offsets@ == s.bricks[m.brick_index as int]
                },
        decreases moves@.len() - idx,
    {
        let ghost am = all_moves(s)[idx as int];
        let mv = Move { brick_index: moves[idx].brick_index, pos: moves[idx].pos };
        proof {
            assert(mv == am);
            assert(valid_move(s, mv));
        }
        let s2 = perform_move(game_state, &mv);
        proof {
            assert(s2@ == spec_perform(s, mv));
        }

        let score: i32;
        if s2.available_bricks.is_empty() {
            proof {
                assert(s2@.bricks =~= Seq::<Seq<crate::brick::XY>>::empty());
            }
            let filled = count_filled_cells(&s2.board);
            score = s2.points - filled * 2;
            proof {
                assert(score == spec_leaf_score(s2@));
                assert(score == spec_move_score(s, am));
            }
        } else {
            let moves2 = get_possible_moves(&s2);
            if moves2.is_empty() {
                score = s2.points - 1000;
                proof {
                    assert(all_moves(s2@).len() == 0);
                    assert(score == spec_move_score(s, am));
                }
            } else {
                let best_sub = ai_move(&s2);
                score = best_sub.score;
                proof {
                    assert(score == spec_best_score(s2@));
                    assert(score == spec_move_score(s, am));
                }
            }
        }

        let pm = &moves[idx];
        scored.push(
            PossibleMoveScore {
                possible_move: PossibleMove {
                    brick: clone_brick(&pm.brick),
                    brick_index: pm.brick_index,
                    pos: pm.pos,
                },
                score,
            },
        );
        idx = idx + 1;
    }

    let mut best_idx: usize = 0;
    let mut i: usize = 1;
    while i < scored.len()
        invariant
            1 <= i <= scored@.len(),
            0 <= best_idx < i,
            best_idx as int == spec_best_idx_upto(s, i as int),
        decreases scored@.len() - i,
    {
        if scored[i].score >= scored[best_idx].score {
            best_idx = i;
        }
        i = i + 1;
    }
    proof {
        assert(best_idx as int == spec_chosen_idx(s));
    }
    let r = scored.remove(best_idx);
    r
}

/// Planner determinism: the planner's contract pins both the chosen move
/// and its score to functions of the game state alone, so for a fixed
/// board, fixed batch and the fixed last-maximum tie-break, repeated
/// invocations agree.
pub proof fn lemma_planner_deterministic(
    s: StateModel,
    m1: Move,
    sc1: int,
    m2: Move,
    sc2: int,
)
    requires
        m1 == all_moves(s)[spec_chosen_idx(s)],
        sc1 == spec_best_score(s),
        m2 == all_moves(s)[spec_chosen_idx(s)],
        sc2 == spec_best_score(s),
    ensures
        m1 == m2,
        sc1 == sc2,
{
}

} // verus!

