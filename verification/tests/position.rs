use tiling_solver::position::{Position, SIDE};

#[test]
fn position_keeps_its_coordinates() {
    let p = Position::new(3, 7);
    assert_eq!(p.x(), 3);
    assert_eq!(p.y(), 7);
    assert_eq!(SIDE, 8);
}

#[test]
fn positions_compare_by_x_then_y() {
    assert_eq!(Position::new(2, 5), Position::new(2, 5));
    assert_ne!(Position::new(2, 5), Position::new(5, 2));
    assert!(Position::new(1, 7) < Position::new(2, 0));
    assert!(Position::new(2, 0) < Position::new(2, 1));
}

#[test]
fn try_add_within_the_board() {
    let sum = Position::new(3, 4).try_add(&Position::new(4, 3));
    assert_eq!(sum, Some(Position::new(7, 7)));
    let same = Position::new(5, 6).try_add(&Position::new(0, 0));
    assert_eq!(same, Some(Position::new(5, 6)));
}

#[test]
fn try_add_beyond_the_edge() {
    assert_eq!(Position::new(7, 0).try_add(&Position::new(1, 0)), None);
    assert_eq!(Position::new(0, 4).try_add(&Position::new(0, 4)), None);
    assert_eq!(Position::new(7, 7).try_add(&Position::new(7, 7)), None);
}

#[test]
fn offset_may_leave_the_board() {
    let p = Position::new(0, 7);
    assert_eq!(p.offset((-1, 0)), (-1, 7));
    assert_eq!(p.offset((0, 1)), (0, 8));
    assert_eq!(p.offset((3, -2)), (3, 5));
    assert_eq!(Position::new(7, 7).offset((120, -128)), (127, -121));
}
