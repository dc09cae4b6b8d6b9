use roku_doku::brick::{xy, Brick};
use roku_doku::game::{GameState, Move};
use roku_doku::planner::ai_move;

fn brick(cells: &[(i32, i32)]) -> Brick {
    Brick { offsets: cells.iter().map(|&(x, y)| xy(x, y)).collect() }
}

#[test]
fn test_planner_prefers_clearing_move() {
    // with one single-cell piece and a row one cell short, clearing beats
    // any placement that leaves the board crowded
    let mut state = GameState::new();
    for x in 0..8 {
        state.board.set(x, 0, true);
    }
    state.available_bricks = vec![brick(&[(0, 0)])];
    let chosen = ai_move(&state);
    assert_eq!(chosen.possible_move.brick_index, 0);
    assert_eq!(chosen.possible_move.pos, xy(8, 0));
    // clearing: 18 points, empty board afterwards
    assert_eq!(chosen.score, 18);
}

#[test]
fn test_planner_is_deterministic() {
    let mut state = GameState::new();
    state.board.set(4, 4, true);
    state.available_bricks = vec![
        brick(&[(0, 0), (1, 0)]),
        brick(&[(0, 0), (1, 0), (0, 1)]),
        brick(&[(0, 0)]),
    ];
    let first = ai_move(&state);
    let second = ai_move(&state);
    assert_eq!(Move::from(first.possible_move), Move::from(second.possible_move));
    assert_eq!(first.score, second.score);
}

#[test]
fn test_planner_leaf_score_subtracts_filled_cells() {
    // a lone single-cell piece on an empty board: every placement fills one
    // cell (1 point) and leaves one cell filled (-2): best score is -1
    let mut state = GameState::new();
    state.available_bricks = vec![brick(&[(0, 0)])];
    let chosen = ai_move(&state);
    assert_eq!(chosen.score, -1);
}

#[test]
fn test_planner_ties_go_to_last_candidate() {
    // all 81 placements of a lone single cell on an empty board score the
    // same; the planner keeps the last maximum in enumeration order
    let mut state = GameState::new();
    state.available_bricks = vec![brick(&[(0, 0)])];
    let chosen = ai_move(&state);
    assert_eq!(chosen.possible_move.pos, xy(8, 8));
}

#[test]
fn test_planner_forced_game_over_penalty() {
    // on a checkerboard no five-line ever fits: every move leaves a batch
    // with no legal placement and pays the 1000-point penalty
    let mut state = GameState::new();
    for x in 0..9 {
        for y in 0..9 {
            if (x + y) % 2 == 1 {
                state.board.set(x, y, true);
            }
        }
    }
    state.available_bricks = vec![
        brick(&[(0, 0)]),
        brick(&[(0, 0), (1, 0), (2, 0), (3, 0), (4, 0)]),
    ];
    let chosen = ai_move(&state);
    assert_eq!(chosen.possible_move.brick_index, 0);
    assert_eq!(chosen.possible_move.pos, xy(8, 8));
    // one fill point, then the forced game over
    assert_eq!(chosen.score, 1 - 1000);
}

#[test]
fn test_planner_searches_whole_batch() {
    // two pieces: a row needs (8,0); only the single cell fits there, and
    // the bent piece must go elsewhere; the planner still finds the clear
    let mut state = GameState::new();
    for x in 0..8 {
        state.board.set(x, 0, true);
    }
    state.available_bricks = vec![brick(&[(0, 0), (1, 0), (0, 1)]), brick(&[(0, 0)])];
    let chosen = ai_move(&state);
    // playing the bent piece first cannot block the clear; whichever order
    // scores best, the final score reflects both pieces being played
    let replayed = ai_move(&state);
    assert_eq!(chosen.score, replayed.score);
    assert_eq!(
        Move::from(chosen.possible_move),
        Move::from(replayed.possible_move)
    );
}
