use roku_doku::resolve::resolve_board;
use roku_doku::Board;

#[test]
fn test_resolve_empty_board() {
    let ret = resolve_board(Board::default());
    assert_eq!(ret.blocks_removed, 0);

    for x in 0..9 {
        for y in 0..9 {
            assert_eq!(ret.board.get(x, y), false);
        }
    }
}

#[test]
fn test_resolve_row() {
    let mut board = Board::default();
    for x in 0..9 {
        board.set(x, 4, true);
    }

    let ret = resolve_board(board);
    assert_eq!(ret.blocks_removed, 1);
    for x in 0..9 {
        assert_eq!(ret.board.get(x, 4), false);
    }
}

#[test]
fn test_resolve_2_rows() {
    let mut board = Board::default();
    for x in 0..9 {
        board.set(x, 4, true);
        board.set(x, 7, true);
    }

    let ret = resolve_board(board);
    assert_eq!(ret.blocks_removed, 2);
    for x in 0..9 {
        assert_eq!(ret.board.get(x, 4), false);
        assert_eq!(ret.board.get(x, 7), false);
    }
}

#[test]
fn test_resolve_column() {
    let mut board = Board::default();
    for y in 0..9 {
        board.set(3, y, true);
    }

    let ret = resolve_board(board);
    assert_eq!(ret.blocks_removed, 1);
    for y in 0..9 {
        assert_eq!(ret.board.get(3, y), false);
    }
}

#[test]
fn test_resolve_2_columns() {
    let mut board = Board::default();
    for y in 0..9 {
        board.set(3, y, true);
        board.set(5, y, true);
    }

    let ret = resolve_board(board);
    assert_eq!(ret.blocks_removed, 2);
    for y in 0..9 {
        assert_eq!(ret.board.get(3, y), false);
        assert_eq!(ret.board.get(5, y), false);
    }
}

#[test]
fn test_resolve_block() {
    let mut board = Board::default();
    for x in 3..6 {
        for y in 3..6 {
            board.set(x, y, true);
        }
    }

    let ret = resolve_board(board);
    assert_eq!(ret.blocks_removed, 1);
    for x in 3..6 {
        for y in 3..6 {
            assert_eq!(ret.board.get(x, y), false);
        }
    }
}

#[test]
fn test_resolve_column_row_and_block() {
    let mut board = Board::default();
    for x in 3..6 {
        for y in 3..6 {
            board.set(x, y, true);
        }
    }

    for x in 0..9 {
        board.set(x, 2, true);
    }

    for y in 0..9 {
        board.set(1, y, true);
    }

    let ret = resolve_board(board);
    assert_eq!(ret.blocks_removed, 3);
    for x in 0..9 {
        for y in 0..9 {
            assert_eq!(ret.board.get(x, y), false);
        }
    }
}
