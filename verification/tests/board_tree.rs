use tiling_solver::board::Board;
use tiling_solver::board_tree::BoardTree;
use tiling_solver::position::Position;

fn board_with(x: u8, y: u8, value: u8) -> Board {
    let mut board = Board::default();
    board.set_value(Position::new(x, y), value);
    board
}

#[test]
fn empty_record_holds_nothing() {
    let tree = BoardTree::default();
    assert!(tree.get_board(0).is_none());
    assert_eq!(tree.parent(0), None);
    assert!(tree.children(0).is_none());
}

#[test]
fn identifier_depends_on_the_cells_alone() {
    let mut tree = BoardTree::default();
    let first = tree.insert(board_with(1, 1, 5), None);
    let again = tree.insert(board_with(1, 1, 5), None);
    let other = tree.insert(board_with(1, 1, 6), None);
    assert_eq!(first, again);
    assert_ne!(first, other);
    let mut second = BoardTree::default();
    assert_eq!(second.insert(board_with(1, 1, 5), Some(77)), first);
}

#[test]
fn root_has_no_parent() {
    let mut tree = BoardTree::default();
    let root = tree.insert(Board::default(), None);
    assert_eq!(
        tree.get_board(root).map(|board| *board.as_slice()),
        Some([0u8; 64])
    );
    assert_eq!(tree.parent(root), None);
    assert!(tree.children(root).is_none());
}

#[test]
fn children_are_kept_in_order_under_their_parent() {
    let mut tree = BoardTree::default();
    let root = tree.insert(Board::default(), None);
    let a = tree.insert(board_with(0, 0, 1), Some(root));
    let b = tree.insert(board_with(1, 0, 1), Some(root));
    let c = tree.insert(board_with(2, 0, 1), Some(a));
    assert_eq!(tree.children(root), Some(&[a, b][..]));
    assert_eq!(tree.children(a), Some(&[c][..]));
    assert!(tree.children(b).is_none());
    assert_eq!(tree.parent(a), Some(root));
    assert_eq!(tree.parent(b), Some(root));
    assert_eq!(tree.parent(c), Some(a));
    assert_eq!(
        tree.get_board(c).map(|board| board.get_value(Position::new(2, 0))),
        Some(1)
    );
}

#[test]
fn entering_a_board_again_links_it_again() {
    let mut tree = BoardTree::default();
    let root = tree.insert(Board::default(), None);
    let a = tree.insert(board_with(0, 0, 1), Some(root));
    let again = tree.insert(board_with(0, 0, 1), Some(5));
    assert_eq!(a, again);
    assert_eq!(tree.parent(a), Some(5));
    assert_eq!(tree.children(root), Some(&[a][..]));
    assert_eq!(tree.children(5), Some(&[a][..]));
}
