use roku_doku::brick::{xy, Brick};
use roku_doku::game::GameState;
use roku_doku::input::{parse_user_move, MoveInputError};

fn brick(cells: &[(i32, i32)]) -> Brick {
    Brick { offsets: cells.iter().map(|&(x, y)| xy(x, y)).collect() }
}

fn state_with_bricks() -> GameState {
    let mut state = GameState::new();
    state.available_bricks = vec![brick(&[(0, 0)]), brick(&[(0, 0), (1, 0)])];
    state
}

fn parse(text: &str, state: &GameState) -> Result<roku_doku::game::Move, MoveInputError> {
    parse_user_move(&text.as_bytes().to_vec(), state)
}

#[test]
fn test_parse_valid_move() {
    let state = state_with_bricks();
    let m = parse("1 d4\n", &state).unwrap();
    assert_eq!(m.brick_index, 0);
    assert_eq!(m.pos, xy(3, 3));
    let m = parse("2 a1\n", &state).unwrap();
    assert_eq!(m.brick_index, 1);
    assert_eq!(m.pos, xy(0, 0));
    // surrounding whitespace is trimmed from both parts
    let m = parse("\t1 i9\n", &state).unwrap();
    assert_eq!(m.brick_index, 0);
    assert_eq!(m.pos, xy(8, 8));
}

#[test]
fn test_parse_rejects_wrong_part_count() {
    let state = state_with_bricks();
    assert_eq!(parse("1d4\n", &state), Err(MoveInputError::NotTwoParts));
    assert_eq!(parse("1 d 4\n", &state), Err(MoveInputError::NotTwoParts));
    assert_eq!(parse("", &state), Err(MoveInputError::NotTwoParts));
}

#[test]
fn test_parse_rejects_bad_index() {
    let state = state_with_bricks();
    assert_eq!(parse("x d4\n", &state), Err(MoveInputError::IndexNotInteger));
    assert_eq!(
        parse("99999999999999999999 d4\n", &state),
        Err(MoveInputError::IndexNotInteger)
    );
    assert_eq!(parse("0 d4\n", &state), Err(MoveInputError::IndexOutOfRange));
    assert_eq!(parse("3 d4\n", &state), Err(MoveInputError::IndexOutOfRange));
    assert_eq!(parse("-1 d4\n", &state), Err(MoveInputError::IndexOutOfRange));
}

#[test]
fn test_parse_rejects_bad_position() {
    let state = state_with_bricks();
    assert_eq!(parse("1 j4\n", &state), Err(MoveInputError::BadPosition));
    assert_eq!(parse("1 d0\n", &state), Err(MoveInputError::BadPosition));
    assert_eq!(parse("1 d10\n", &state), Err(MoveInputError::BadPosition));
    assert_eq!(parse("1 4d\n", &state), Err(MoveInputError::BadPosition));
}

#[test]
fn test_parse_rejects_illegal_placement() {
    let mut state = state_with_bricks();
    state.board.set(3, 3, true);
    assert_eq!(parse("1 d4\n", &state), Err(MoveInputError::IllegalPlacement));
    // the two-cell brick cannot hang over the right edge
    assert_eq!(parse("2 i1\n", &state), Err(MoveInputError::IllegalPlacement));
    assert!(parse("1 e4\n", &state).is_ok());
}
