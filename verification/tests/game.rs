use roku_doku::brick::{xy, Brick};
use roku_doku::game::{
    can_put_brick, get_possible_moves, newly_filled_cells_count, perform_move, possible_moves,
    put_brick, GameState, Move,
};
use roku_doku::Board;

fn brick(cells: &[(i32, i32)]) -> Brick {
    Brick { offsets: cells.iter().map(|&(x, y)| xy(x, y)).collect() }
}

#[test]
fn test_can_put_brick_rejects_out_of_bounds() {
    let board = Board::default();
    let five_line = brick(&[(0, 0), (1, 0), (2, 0), (3, 0), (4, 0)]);
    assert!(can_put_brick(&board, &five_line, &xy(4, 0)));
    assert!(!can_put_brick(&board, &five_line, &xy(5, 0)));
    let single = brick(&[(0, 0)]);
    assert!(can_put_brick(&board, &single, &xy(8, 8)));
    assert!(!can_put_brick(&board, &single, &xy(9, 8)));
    assert!(!can_put_brick(&board, &single, &xy(0, 9)));
}

#[test]
fn test_can_put_brick_rejects_overlap() {
    let mut board = Board::default();
    board.set(4, 4, true);
    let two_line = brick(&[(0, 0), (1, 0)]);
    assert!(!can_put_brick(&board, &two_line, &xy(4, 4)));
    assert!(!can_put_brick(&board, &two_line, &xy(3, 4)));
    assert!(can_put_brick(&board, &two_line, &xy(5, 4)));
    assert!(can_put_brick(&board, &two_line, &xy(3, 5)));
}

#[test]
fn test_put_brick_fills_cells_and_keeps_input() {
    let board = Board::default();
    let l_shape = brick(&[(0, 0), (1, 0), (0, 1)]);
    let placed = put_brick(&board, &l_shape, &xy(2, 3));
    assert!(placed.get(2, 3));
    assert!(placed.get(3, 3));
    assert!(placed.get(2, 4));
    assert!(!placed.get(3, 4));
    // the input board is a value: it is unmodified
    assert!(!board.get(2, 3));
}

#[test]
fn test_possible_moves_empty_board() {
    let board = Board::default();
    let single = brick(&[(0, 0)]);
    assert_eq!(possible_moves(&board, &single).len(), 81);
    let five_line = brick(&[(0, 0), (1, 0), (2, 0), (3, 0), (4, 0)]);
    assert_eq!(possible_moves(&board, &five_line).len(), 5 * 9);
}

#[test]
fn test_possible_moves_scan_order() {
    let board = Board::default();
    let single = brick(&[(0, 0)]);
    let moves = possible_moves(&board, &single);
    // x ascending, then y ascending
    assert_eq!(moves[0], xy(0, 0));
    assert_eq!(moves[1], xy(0, 1));
    assert_eq!(moves[9], xy(1, 0));
    assert_eq!(moves[80], xy(8, 8));
}

#[test]
fn test_newly_filled_cells_count() {
    let old_board = Board::default();
    let mut new_board = Board::default();
    new_board.set(0, 0, true);
    new_board.set(5, 7, true);
    assert_eq!(newly_filled_cells_count(&new_board, &old_board), 2);
    assert_eq!(newly_filled_cells_count(&old_board, &new_board), 0);
}

#[test]
fn test_game_state_new_is_empty() {
    let state = GameState::new();
    assert_eq!(state.points, 0);
    assert!(!state.last_move_was_match);
    assert!(state.available_bricks.is_empty());
    for x in 0..9 {
        for y in 0..9 {
            assert!(!state.board.get(x, y));
        }
    }
}

#[test]
fn test_perform_move_fill_bonus_only() {
    // placing three cells on an empty board clears nothing: 3 points
    let mut state = GameState::new();
    state.available_bricks = vec![brick(&[(0, 0), (1, 0), (0, 1)])];
    let after = perform_move(&state, &Move { brick_index: 0, pos: xy(4, 4) });
    assert_eq!(after.points, 3);
    assert!(!after.last_move_was_match);
    assert!(after.available_bricks.is_empty());
    assert!(after.board.get(4, 4));
    assert!(after.board.get(5, 4));
    assert!(after.board.get(4, 5));
}

#[test]
fn test_perform_move_clearing_scores_18() {
    // completing a row scores 18 per unit; the cleared cells pay no fill bonus
    let mut state = GameState::new();
    for x in 0..8 {
        state.board.set(x, 0, true);
    }
    state.available_bricks = vec![brick(&[(0, 0)])];
    let after = perform_move(&state, &Move { brick_index: 0, pos: xy(8, 0) });
    assert_eq!(after.points, 18);
    assert!(after.last_move_was_match);
    for x in 0..9 {
        assert!(!after.board.get(x, 0));
    }
}

#[test]
fn test_perform_move_streak_bonus() {
    // a second consecutive clearing move earns 9 extra points
    let mut state = GameState::new();
    for x in 0..8 {
        state.board.set(x, 0, true);
        state.board.set(x, 2, true);
    }
    state.available_bricks = vec![brick(&[(0, 0)]), brick(&[(0, 0)])];
    let mid = perform_move(&state, &Move { brick_index: 0, pos: xy(8, 0) });
    assert_eq!(mid.points, 18);
    let after = perform_move(&mid, &Move { brick_index: 0, pos: xy(8, 2) });
    assert_eq!(after.points, 18 + 18 + 9);
    assert!(after.last_move_was_match);
}

#[test]
fn test_get_possible_moves_tags_brick_indices() {
    let mut state = GameState::new();
    state.available_bricks = vec![
        brick(&[(0, 0)]),
        brick(&[(0, 0), (1, 0), (2, 0), (3, 0), (4, 0)]),
    ];
    let moves = get_possible_moves(&state);
    assert_eq!(moves.len(), 81 + 45);
    assert!(moves[..81].iter().all(|m| m.brick_index == 0));
    assert!(moves[81..].iter().all(|m| m.brick_index == 1));
}

#[test]
fn test_single_cell_end_to_end() {
    // place a single-cell piece at (0,0): the spot is then occupied while
    // its right neighbour is free
    let mut state = GameState::new();
    let single = brick(&[(0, 0)]);
    state.available_bricks = vec![single];
    assert!(can_put_brick(&state.board, &state.available_bricks[0], &xy(0, 0)));
    let after = perform_move(&state, &Move { brick_index: 0, pos: xy(0, 0) });
    let single = brick(&[(0, 0)]);
    assert!(!can_put_brick(&after.board, &single, &xy(0, 0)));
    assert!(can_put_brick(&after.board, &single, &xy(1, 0)));
    assert_eq!(after.points, 1);
}
