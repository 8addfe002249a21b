use tiling_solver::board::Board;
use tiling_solver::board_tree::BoardTree;
use tiling_solver::piece::Piece;
use tiling_solver::position::Position;
use tiling_solver::solve::dumb_solver::{
    has_neighbour, has_single_cells, step, DumbFailure, DumbSolver, DumbStats,
};
use tiling_solver::solve::{solve, Solvable, SolveResult, SolveStats};

fn piece(id: u8, cells: &[(u8, u8)]) -> Piece {
    Piece::new(
        id,
        cells.iter().map(|(x, y)| Position::new(*x, *y)).collect(),
    )
}

fn square(id: u8) -> Piece {
    piece(id, &[(0, 0), (1, 0), (0, 1), (1, 1)])
}

fn domino(id: u8) -> Piece {
    piece(id, &[(0, 0), (1, 0)])
}

/// A board on which only the given cells are empty; the others hold 99.
fn board_with_free(free: &[(u8, u8)]) -> Board {
    let mut board = Board::default();
    for y in 0..8 {
        for x in 0..8 {
            if !free.contains(&(x, y)) {
                board.set_value(Position::new(x, y), 99);
            }
        }
    }
    board
}

fn free_corner(side: u8) -> Board {
    let mut free = Vec::new();
    for y in 0..side {
        for x in 0..side {
            free.push((x, y));
        }
    }
    board_with_free(&free)
}

fn rows(board: &Board, side: usize) -> Vec<Vec<u8>> {
    (0..side)
        .map(|y| board.as_slice()[y * 8..y * 8 + side].to_vec())
        .collect()
}

#[test]
fn four_squares_fill_a_corner() {
    let board = free_corner(4);
    let pieces = vec![
        vec![square(1)],
        vec![square(2)],
        vec![square(3)],
        vec![square(4)],
    ];
    let (result, stats) = solve(DumbSolver, &board, &pieces);
    match result {
        SolveResult::Solved(full) => {
            assert!(full.is_solved());
            assert!(full.as_slice().iter().all(|value| *value != 0));
            assert_eq!(
                rows(&full, 4),
                vec![
                    vec![1, 1, 2, 2],
                    vec![1, 1, 2, 2],
                    vec![3, 3, 4, 4],
                    vec![3, 3, 4, 4],
                ]
            );
            assert_eq!(full.get_value(Position::new(4, 0)), 99);
        }
        other => panic!("not solved: {:?}", other),
    }
    assert!(stats.num_checked_boards >= 4);
    assert_eq!(stats.num_checked_boards, 5);
    assert_eq!(stats.num_skiped_single, 0);
    assert_eq!(stats.checked(), 5);
    assert_eq!(stats.skipped(), 0);
}

#[test]
fn four_tees_fill_a_corner_after_backtracking() {
    let board = free_corner(4);
    let tee = |id: u8| piece(id, &[(1, 0), (0, 1), (1, 1), (2, 1)]).get_all_transforms();
    let pieces = vec![tee(1), tee(2), tee(3), tee(4)];
    let (result, stats) = solve(DumbSolver, &board, &pieces);
    match result {
        SolveResult::Solved(full) => {
            assert_eq!(
                rows(&full, 4),
                vec![
                    vec![1, 2, 2, 2],
                    vec![1, 1, 2, 3],
                    vec![1, 4, 3, 3],
                    vec![4, 4, 4, 3],
                ]
            );
        }
        other => panic!("not solved: {:?}", other),
    }
    assert_eq!(stats.num_checked_boards, 6);
    assert_eq!(stats.num_skiped_single, 1);
}

#[test]
fn no_pieces_at_all() {
    let pieces: Vec<Vec<Piece>> = vec![];
    let (result, stats) = solve(DumbSolver, &Board::default(), &pieces);
    assert!(matches!(result, SolveResult::NoMorePieces));
    assert_eq!(stats.num_checked_boards, 1);
    assert_eq!(stats.num_skiped_single, 0);
    let (on_full, _) = solve(DumbSolver, &free_corner(0), &pieces);
    assert!(matches!(on_full, SolveResult::NoMorePieces));
}

#[test]
fn too_few_pieces_for_the_board() {
    let pieces = vec![vec![square(1)]];
    let (result, stats) = solve(DumbSolver, &Board::default(), &pieces);
    assert!(matches!(result, SolveResult::NotSolvable));
    assert_eq!(stats.num_checked_boards, 50);
    assert_eq!(stats.num_skiped_single, 0);
}

#[test]
fn group_without_variants_cannot_be_placed() {
    let pieces: Vec<Vec<Piece>> = vec![vec![]];
    let (result, stats) = solve(DumbSolver, &Board::default(), &pieces);
    assert!(matches!(result, SolveResult::NotSolvable));
    assert_eq!(stats.num_checked_boards, 1);
}

#[test]
fn three_cells_cannot_take_two_dominoes() {
    let board = board_with_free(&[(0, 0), (1, 0), (0, 1)]);
    let pieces = vec![
        domino(5).get_all_transforms(),
        domino(6).get_all_transforms(),
    ];
    for _ in 0..3 {
        let (result, stats) = solve(DumbSolver, &board, &pieces);
        assert!(matches!(result, SolveResult::NotSolvable));
        assert_eq!(stats.num_checked_boards, 3);
        assert_eq!(stats.num_skiped_single, 2);
    }
}

#[test]
fn skew_pieces_cannot_fill_a_corner() {
    let board = free_corner(4);
    let skew = |id: u8| piece(id, &[(0, 0), (1, 0), (1, 1), (2, 1)]).get_all_transforms();
    let pieces = vec![skew(1), skew(2), skew(3), skew(4)];
    let (first, first_stats) = solve(DumbSolver, &board, &pieces);
    let (second, second_stats) = solve(DumbSolver, &board, &pieces);
    assert!(matches!(first, SolveResult::NotSolvable));
    assert!(matches!(second, SolveResult::NotSolvable));
    assert_eq!(first_stats.num_checked_boards, 89);
    assert_eq!(first_stats.num_skiped_single, 56);
    assert_eq!(second_stats.num_checked_boards, 89);
    assert_eq!(second_stats.num_skiped_single, 56);
}

#[test]
fn two_runs_give_the_same_board() {
    let board = free_corner(4);
    let tee = |id: u8| piece(id, &[(1, 0), (0, 1), (1, 1), (2, 1)]).get_all_transforms();
    let pieces = vec![tee(1), tee(2), tee(3), tee(4)];
    let (first, first_stats) = solve(DumbSolver, &board, &pieces);
    let (second, second_stats) = solve(DumbSolver, &board, &pieces);
    match (first, second) {
        (SolveResult::Solved(a), SolveResult::Solved(b)) => {
            assert_eq!(a.as_slice(), b.as_slice())
        }
        other => panic!("not solved twice: {:?}", other),
    }
    assert_eq!(
        first_stats.num_checked_boards,
        second_stats.num_checked_boards
    );
    assert_eq!(first_stats.num_skiped_single, second_stats.num_skiped_single);
}

#[test]
fn closed_in_corner_is_pruned() {
    let pieces = vec![vec![piece(1, &[(1, 0), (0, 1), (1, 1)])]];
    let (result, stats) = solve(DumbSolver, &Board::default(), &pieces);
    assert!(matches!(result, SolveResult::NotSolvable));
    assert_eq!(stats.num_checked_boards, 50);
    assert_eq!(stats.num_skiped_single, 1);
}

#[test]
fn pruned_boards_are_not_searched_further() {
    let mut board = Board::default();
    board.set_value(Position::new(1, 0), 9);
    board.set_value(Position::new(0, 1), 9);
    assert!(has_single_cells(&board));
    let pieces = vec![
        domino(2).get_all_transforms(),
        domino(3).get_all_transforms(),
    ];
    let (result, stats) = solve(DumbSolver, &board, &pieces);
    assert!(matches!(result, SolveResult::NotSolvable));
    assert_eq!(stats.num_checked_boards, 107);
    assert_eq!(stats.num_skiped_single, 106);
}

#[test]
fn record_links_the_boards_of_a_run() {
    let board = board_with_free(&[(0, 0), (1, 0), (0, 1), (1, 1)]);
    let pieces = vec![
        domino(2).get_all_transforms(),
        domino(3).get_all_transforms(),
    ];
    let (result, stats) = solve(DumbSolver, &board, &pieces);
    let full = match result {
        SolveResult::Solved(full) => full,
        other => panic!("not solved: {:?}", other),
    };
    assert_eq!(rows(&full, 2), vec![vec![2, 2], vec![3, 3]]);
    assert_eq!(stats.num_checked_boards, 3);

    let mut expected = BoardTree::default();
    let root = expected.insert(board, None);
    let mut half = board;
    assert!(half.place_piece(Position::new(0, 0), &domino(2)).is_ok());
    let middle = expected.insert(half, Some(root));
    let last = expected.insert(full, Some(middle));

    let tree = stats.tree();
    assert_eq!(tree.parent(root), None);
    assert_eq!(tree.children(root), Some(&[middle][..]));
    assert_eq!(tree.parent(middle), Some(root));
    assert_eq!(tree.children(middle), Some(&[last][..]));
    assert_eq!(tree.parent(last), Some(middle));
    assert!(tree.children(last).is_none());
    assert_eq!(
        tree.get_board(middle).map(|b| *b.as_slice()),
        Some(*half.as_slice())
    );
    assert_eq!(
        tree.get_board(last).map(|b| *b.as_slice()),
        Some(*full.as_slice())
    );
}

#[test]
fn step_without_pieces_reports_no_more_pieces() {
    let mut stats = DumbStats::default();
    let pieces: Vec<Vec<Piece>> = vec![];
    let result = step(&mut stats, &Board::default(), &pieces, 0, 7);
    assert_eq!(result.err(), Some(DumbFailure::NoMorePieces));
    assert_eq!(stats.num_checked_boards, 0);
    assert_eq!(stats.num_skiped_single, 0);
}

#[test]
fn step_adds_to_the_counters_it_is_given() {
    let board = board_with_free(&[(0, 0), (1, 0), (0, 1)]);
    let pieces = vec![
        domino(5).get_all_transforms(),
        domino(6).get_all_transforms(),
    ];
    let mut stats = DumbStats::default();
    stats.num_checked_boards = 10;
    stats.num_skiped_single = 20;
    let result = step(&mut stats, &board, &pieces, 3, 42);
    assert_eq!(result.err(), Some(DumbFailure::NotSolvable));
    assert_eq!(stats.num_checked_boards, 12);
    assert_eq!(stats.num_skiped_single, 22);
    assert_eq!(stats.tree().children(42).map(|ids| ids.len()), Some(2));
}

#[test]
fn step_returns_the_first_solved_board() {
    let board = board_with_free(&[(0, 0), (1, 0), (0, 1), (1, 1)]);
    let pieces = vec![
        domino(2).get_all_transforms(),
        domino(3).get_all_transforms(),
    ];
    let mut stats = DumbStats::default();
    let full = step(&mut stats, &board, &pieces, 0, 0).ok();
    assert_eq!(
        full.map(|b| rows(&b, 2)),
        Some(vec![vec![2, 2], vec![3, 3]])
    );
    assert_eq!(stats.num_checked_boards, 2);
}

#[test]
fn counters_stop_at_the_largest_value() {
    let board = board_with_free(&[(0, 0), (1, 0), (0, 1)]);
    let pieces = vec![domino(5).get_all_transforms()];
    let mut stats = SolveStats::default();
    stats.num_checked_boards = usize::MAX - 1;
    stats.num_skiped_single = usize::MAX;
    let result = DumbSolver.solve(&mut stats, &board, &pieces);
    assert!(matches!(result, SolveResult::NotSolvable));
    assert_eq!(stats.num_checked_boards, usize::MAX);
    assert_eq!(stats.num_skiped_single, usize::MAX);
}

#[test]
fn insert_board_counts_and_records() {
    let mut stats = SolveStats::default();
    let root = stats.insert_board(None, Board::default());
    let mut next = Board::default();
    next.set_value(Position::new(0, 0), 1);
    let child = stats.insert_board(Some(root), next);
    assert_eq!(stats.num_checked_boards, 2);
    assert_eq!(stats.num_skiped_single, 0);
    assert_eq!(stats.tree().parent(child), Some(root));
    stats.count_skipped();
    assert_eq!(stats.num_skiped_single, 1);
    assert_eq!(stats.num_checked_boards, 2);
}

#[test]
fn neighbours_are_cells_or_the_edge() {
    let mut board = Board::default();
    board.set_value(Position::new(3, 3), 1);
    let at = Position::new(3, 4);
    assert!(has_neighbour(&board, &at, (0, -1)));
    assert!(!has_neighbour(&board, &at, (0, 1)));
    assert!(!has_neighbour(&board, &at, (-1, 0)));
    let corner = Position::new(0, 7);
    assert!(has_neighbour(&board, &corner, (-1, 0)));
    assert!(has_neighbour(&board, &corner, (0, 1)));
    assert!(!has_neighbour(&board, &corner, (1, 0)));
    assert!(has_neighbour(&board, &Position::new(7, 0), (1, 0)));
    assert!(has_neighbour(&board, &Position::new(7, 0), (0, -1)));
}

#[test]
fn single_cells_in_the_middle_at_the_edge_and_in_a_corner() {
    assert!(!has_single_cells(&Board::default()));
    assert!(!has_single_cells(&free_corner(0)));
    assert!(!has_single_cells(&free_corner(2)));
    assert!(has_single_cells(&free_corner(1)));

    let mut middle = Board::default();
    for (x, y) in [(3, 4), (5, 4), (4, 3), (4, 5)] {
        middle.set_value(Position::new(x, y), 1);
    }
    assert!(has_single_cells(&middle));
    middle.set_value(Position::new(4, 5), 0);
    assert!(!has_single_cells(&middle));

    let mut edge = Board::default();
    for (x, y) in [(2, 0), (4, 0), (3, 1)] {
        edge.set_value(Position::new(x, y), 1);
    }
    assert!(has_single_cells(&edge));

    let mut corner = Board::default();
    corner.set_value(Position::new(6, 7), 1);
    assert!(!has_single_cells(&corner));
    corner.set_value(Position::new(7, 6), 1);
    assert!(has_single_cells(&corner));
}

#[test]
fn failure_messages() {
    assert_eq!(DumbFailure::NoMorePieces.message(), "No more pieces\n");
    assert_eq!(DumbFailure::NotSolvable.message(), "Not Solvable\n");
}
