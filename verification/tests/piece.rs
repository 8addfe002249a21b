use tiling_solver::piece::Piece;
use tiling_solver::position::Position;

fn piece(id: u8, cells: &[(u8, u8)]) -> Piece {
    Piece::new(
        id,
        cells.iter().map(|(x, y)| Position::new(*x, *y)).collect(),
    )
}

fn cells(piece: &Piece) -> Vec<(u8, u8)> {
    piece.points().iter().map(|p| (p.x(), p.y())).collect()
}

fn crooked() -> Piece {
    piece(1, &[(1, 0), (0, 1), (1, 1), (1, 2), (2, 2)])
}

#[test]
fn new_keeps_the_identifier_and_sorts_the_offsets() {
    let p = crooked();
    assert_eq!(p.id(), 1);
    assert_eq!(cells(&p), vec![(0, 1), (1, 0), (1, 1), (1, 2), (2, 2)]);
}

#[test]
fn new_packs_a_shape_against_the_origin() {
    let far = piece(4, &[(3, 5), (2, 5), (3, 6)]);
    assert_eq!(cells(&far), vec![(0, 0), (1, 0), (1, 1)]);
    assert_eq!(far, piece(4, &[(1, 1), (0, 0), (1, 0)]));
    assert_ne!(far, piece(5, &[(1, 1), (0, 0), (1, 0)]));
    assert_eq!(cells(&piece(1, &[(7, 7)])), vec![(0, 0)]);
    assert_eq!(cells(&piece(1, &[(7, 0), (0, 7)])), vec![(0, 7), (7, 0)]);
}

#[test]
fn new_counts_a_repeated_offset_once() {
    let twice = piece(6, &[(1, 0), (0, 0), (1, 0), (0, 0)]);
    assert_eq!(cells(&twice), vec![(0, 0), (1, 0)]);
    assert_eq!(twice, piece(6, &[(0, 0), (1, 0)]));
    assert_eq!(twice.get_all_transforms().len(), 2);
}

#[test]
fn clone_is_equal() {
    let p = crooked();
    let q = p.clone();
    assert_eq!(p, q);
    assert_eq!(q.id(), 1);
    assert_eq!(cells(&q), cells(&p));
}

#[test]
fn rotate_cw_of_crooked_piece() {
    let turned = crooked().rotate_cw();
    assert_eq!(turned.id(), 1);
    assert_eq!(cells(&turned), vec![(0, 1), (0, 2), (1, 0), (1, 1), (2, 1)]);
}

#[test]
fn rotate_ccw_of_crooked_piece() {
    assert_eq!(
        cells(&crooked().rotate_ccw()),
        vec![(0, 1), (1, 1), (1, 2), (2, 0), (2, 1)]
    );
}

#[test]
fn rotate_180_of_crooked_piece() {
    assert_eq!(
        cells(&crooked().rotate_180()),
        vec![(0, 0), (1, 0), (1, 1), (1, 2), (2, 1)]
    );
}

#[test]
fn flip_x_of_crooked_piece() {
    assert_eq!(
        cells(&crooked().flip_x()),
        vec![(0, 2), (1, 0), (1, 1), (1, 2), (2, 1)]
    );
}

#[test]
fn flip_y_of_crooked_piece() {
    assert_eq!(
        cells(&crooked().flip_y()),
        vec![(0, 1), (1, 0), (1, 1), (1, 2), (2, 0)]
    );
}

#[test]
fn four_quarter_turns_give_the_piece_back() {
    let p = crooked();
    assert_eq!(p.rotate_cw().rotate_cw().rotate_cw().rotate_cw(), p);
    assert_eq!(p.rotate_cw().rotate_ccw(), p);
    assert_eq!(p.flip_x().flip_x(), p);
    assert_eq!(p.flip_y().flip_y(), p);
    assert_eq!(p.rotate_180(), p.rotate_cw().rotate_cw());
    assert_eq!(p.flip_y(), p.flip_x().rotate_180());
}

#[test]
fn transform_packs_a_shape_against_the_origin() {
    let far = piece(4, &[(3, 5), (2, 5), (3, 6)]);
    assert_eq!(cells(&far.rotate_cw()), vec![(0, 1), (1, 0), (1, 1)]);
    let all = far.get_all_transforms();
    assert_eq!(all[0], far);
    assert_eq!(all.len(), 4);
}

#[test]
fn transform_of_a_shape_that_spans_the_board() {
    let corner = piece(2, &[(7, 7), (0, 0)]);
    assert_eq!(cells(&corner), vec![(0, 0), (7, 7)]);
    assert_eq!(cells(&corner.rotate_cw()), vec![(0, 7), (7, 0)]);
    assert_eq!(cells(&corner.rotate_180()), vec![(0, 0), (7, 7)]);
    assert_eq!(cells(&corner.flip_x()), vec![(0, 7), (7, 0)]);
    assert_eq!(corner.get_all_transforms().len(), 2);
}

#[test]
fn square_has_one_variant() {
    let all = piece(8, &[(0, 0), (1, 0), (0, 1), (1, 1)]).get_all_transforms();
    assert_eq!(all.len(), 1);
    assert_eq!(all[0].id(), 8);
    assert_eq!(cells(&all[0]), vec![(0, 0), (0, 1), (1, 0), (1, 1)]);
}

#[test]
fn domino_has_two_variants() {
    let all = piece(2, &[(0, 0), (1, 0)]).get_all_transforms();
    assert_eq!(all.len(), 2);
    assert_eq!(cells(&all[0]), vec![(0, 0), (1, 0)]);
    assert_eq!(cells(&all[1]), vec![(0, 0), (0, 1)]);
}

#[test]
fn skew_piece_has_four_variants() {
    let all = piece(9, &[(0, 0), (1, 0), (1, 1), (2, 1)]).get_all_transforms();
    let shapes: Vec<Vec<(u8, u8)>> = all.iter().map(cells).collect();
    assert_eq!(
        shapes,
        vec![
            vec![(0, 0), (1, 0), (1, 1), (2, 1)],
            vec![(0, 1), (0, 2), (1, 0), (1, 1)],
            vec![(0, 1), (1, 0), (1, 1), (2, 0)],
            vec![(0, 0), (0, 1), (1, 1), (1, 2)],
        ]
    );
}

#[test]
fn bent_piece_has_eight_variants_in_order() {
    let all = piece(12, &[(0, 0), (1, 0), (2, 0), (0, 1)]).get_all_transforms();
    let shapes: Vec<Vec<(u8, u8)>> = all.iter().map(cells).collect();
    assert_eq!(
        shapes,
        vec![
            vec![(0, 0), (0, 1), (1, 0), (2, 0)],
            vec![(0, 0), (1, 0), (1, 1), (1, 2)],
            vec![(0, 1), (1, 1), (2, 0), (2, 1)],
            vec![(0, 0), (0, 1), (0, 2), (1, 2)],
            vec![(0, 0), (1, 0), (2, 0), (2, 1)],
            vec![(0, 2), (1, 0), (1, 1), (1, 2)],
            vec![(0, 0), (0, 1), (1, 1), (2, 1)],
            vec![(0, 0), (0, 1), (0, 2), (1, 0)],
        ]
    );
    assert!(all.iter().all(|variant| variant.id() == 12));
}

#[test]
fn variants_are_canonical_and_cover_different_cells() {
    let all = crooked().get_all_transforms();
    assert_eq!(all.len(), 8);
    assert_eq!(all[0], crooked());
    assert_eq!(cells(&all[0]), vec![(0, 1), (1, 0), (1, 1), (1, 2), (2, 2)]);
    for variant in &all {
        let shape = cells(variant);
        assert_eq!(shape.len(), 5);
        assert_eq!(shape.iter().map(|c| c.0).min(), Some(0));
        assert_eq!(shape.iter().map(|c| c.1).min(), Some(0));
        let mut sorted = shape.clone();
        sorted.sort();
        assert_eq!(shape, sorted);
    }
    for i in 0..all.len() {
        for j in (i + 1)..all.len() {
            let mut left = cells(&all[i]);
            let mut right = cells(&all[j]);
            left.sort();
            left.dedup();
            right.sort();
            right.dedup();
            assert_ne!(left, right);
        }
    }
}

#[test]
fn piece_without_cells_has_one_empty_variant() {
    let nothing = Piece::new(3, vec![]);
    assert_eq!(cells(&nothing.rotate_cw()), vec![]);
    let all = nothing.get_all_transforms();
    assert_eq!(all.len(), 1);
    assert_eq!(all[0].points().len(), 0);
    assert_eq!(nothing.bounds(), (0, 0));
    assert_eq!(nothing.render(), "+\n");
}

#[test]
fn bounds_reach_past_the_greatest_offset() {
    assert_eq!(crooked().bounds(), (3, 3));
    assert_eq!(piece(1, &[(0, 0), (1, 0), (2, 0), (3, 0), (1, 1)]).bounds(), (4, 2));
    assert_eq!(piece(1, &[(7, 7)]).bounds(), (1, 1));
    assert_eq!(piece(1, &[(2, 5), (4, 1)]).bounds(), (3, 5));
    assert_eq!(piece(1, &[(0, 7), (7, 0)]).bounds(), (8, 8));
}

#[test]
fn check_point_finds_the_offsets() {
    let p = crooked();
    assert!(p.check_point(Position::new(1, 0)));
    assert!(p.check_point(Position::new(2, 2)));
    assert!(!p.check_point(Position::new(0, 0)));
    assert!(!p.check_point(Position::new(2, 1)));
}

#[test]
fn picture_of_a_piece() {
    let expected = "\
+---+---+---+
|   | X |   |
+---+---+---+
| X | X |   |
+---+---+---+
|   | X | X |
+---+---+---+
";
    assert_eq!(crooked().render(), expected);
    assert_eq!(
        piece(2, &[(0, 0), (1, 0)]).render(),
        "+---+---+\n| X | X |\n+---+---+\n"
    );
}
