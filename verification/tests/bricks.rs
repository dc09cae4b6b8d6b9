use roku_doku::brick::{
    all_brick_rotations, generate_brick_library, normalize_brick, random_brick, rotate_clockwise,
    xy, Brick,
};

fn brick(cells: &[(i32, i32)]) -> Brick {
    Brick { offsets: cells.iter().map(|&(x, y)| xy(x, y)).collect() }
}

#[test]
fn test_library_has_44_bricks() {
    let library = generate_brick_library();
    assert_eq!(library.len(), 44);
}

#[test]
fn test_library_starts_with_single_cell() {
    let library = generate_brick_library();
    // the four rotations of the single cell all coincide
    for k in 0..4 {
        assert_eq!(library[k], brick(&[(0, 0)]));
    }
}

#[test]
fn test_rotate_two_cell_line() {
    let b = brick(&[(0, 0), (1, 0)]);
    let r = rotate_clockwise(&b);
    assert_eq!(r, brick(&[(0, 0), (0, 1)]));
}

#[test]
fn test_rotate_l_shape() {
    // XX
    // X
    let b = brick(&[(0, 0), (1, 0), (0, 1)]);
    let r = rotate_clockwise(&b);
    // X
    // XX
    assert_eq!(r, brick(&[(1, 0), (1, 1), (0, 0)]));
}

#[test]
fn test_rotate_five_line_is_transposed() {
    let b = brick(&[(0, 0), (1, 0), (2, 0), (3, 0), (4, 0)]);
    let r = rotate_clockwise(&b);
    assert_eq!(r, brick(&[(0, 0), (0, 1), (0, 2), (0, 3), (0, 4)]));
}

#[test]
fn test_rotation_round_trip_whole_library() {
    // four quarter turns bring every library shape back to itself
    for b in generate_brick_library() {
        let r1 = rotate_clockwise(&b);
        let r2 = rotate_clockwise(&r1);
        let r3 = rotate_clockwise(&r2);
        let r4 = rotate_clockwise(&r3);
        assert_eq!(r4, b);
    }
}

#[test]
fn test_all_brick_rotations_returns_four() {
    let b = brick(&[(0, 0), (1, 0)]);
    let rots = all_brick_rotations(&b);
    assert_eq!(rots.len(), 4);
    assert_eq!(rots[0], b);
    assert_eq!(rots[1], brick(&[(0, 0), (0, 1)]));
    assert_eq!(rots[2], b);
    assert_eq!(rots[3], brick(&[(0, 0), (0, 1)]));
}

#[test]
fn test_normalize_shifts_to_origin() {
    let b = brick(&[(2, 1), (3, 1), (2, 2)]);
    let n = normalize_brick(&b);
    assert_eq!(n, brick(&[(0, 0), (1, 0), (0, 1)]));
}

#[test]
fn test_brick_equality_ignores_order() {
    assert_eq!(brick(&[(0, 0), (1, 0)]), brick(&[(1, 0), (0, 0)]));
    assert_ne!(brick(&[(0, 0), (1, 0)]), brick(&[(0, 0), (0, 1)]));
}

#[test]
fn test_random_brick_comes_from_library() {
    let library = generate_brick_library();
    for _ in 0..20 {
        let b = random_brick(&library);
        assert!(library.iter().any(|entry| *entry == b));
    }
}

#[test]
fn test_random_brick_from_singleton_library() {
    let library = vec![brick(&[(0, 0), (1, 0), (1, 1), (2, 1)])];
    let b = random_brick(&library);
    assert_eq!(b, library[0]);
}
