//! Backtracking search that tries every piece at every cell.

use crate::board::{cell_of, Board, CELLS};
use crate::board_tree::{board_id, BoardID};
use crate::piece::{views, Piece, PieceView};
use crate::position::{shift, Position, SIDE};
use crate::solve::search::{
    blocked, dead_cell, has_dead_cell, lemma_found_is_final, search, tried,
};
use crate::solve::{
    groups_of, lemma_absorb_concat, lemma_absorb_push, Outcome, Solvable, SolveResult, SolveStats,
    StatsView, Visit,
};
use vstd::prelude::*;
use vstd::slice::slice_subrange;

verus! {

/// The statistics that [`step`] keeps.
pub type DumbStats = SolveStats;

/// Why [`step`] found no solved board.
#[derive(Clone, Copy, Debug, PartialEq, Eq, Structural)]
pub enum DumbFailure {
    /// There was no piece to place.
    NoMorePieces,
    /// No placement of the pieces fills the board.
    NotSolvable,
}

/// The failure that a search without result reports, given the number of
/// groups it was started with.
pub open spec fn failure_of(groups: nat) -> DumbFailure {
    if groups == 0 {
        DumbFailure::NoMorePieces
    } else {
        DumbFailure::NotSolvable
    }
}

/// The line of text that reports a failure.
pub open spec fn failure_text(failure: DumbFailure) -> Seq<char> {
    match failure {
        DumbFailure::NoMorePieces => "No more pieces\n"@,
        DumbFailure::NotSolvable => "Not Solvable\n"@,
    }
}

impl DumbFailure {
    /// The line of text that reports this failure.
    pub fn message(&self) -> (text: &'static str)
        ensures
            text@ == failure_text(*self),
    {
        match self {
            DumbFailure::NoMorePieces => "No more pieces\n",
            DumbFailure::NotSolvable => "Not Solvable\n",
        }
    }
}

/// The solver that tries the pieces in the given order, each at every cell
/// in row-major order and in each of its variants.
pub struct DumbSolver;

impl Solvable for DumbSolver {
    /// The board is entered in the record as the root, then searched.
    open spec fn solves(
        &self,
        board: Seq<u8>,
        groups: Seq<Seq<PieceView>>,
        before: StatsView,
        outcome: Outcome,
        after: StatsView,
    ) -> bool {
        let s = search(board, groups, board_id(board));
        &&& after == before.record(None, board).absorb(s.visited, s.skipped)
        &&& outcome == match s.found {
            Some(cells) => Outcome::Solved(cells),
            None => if groups.len() == 0 {
                Outcome::NoMorePieces
            } else {
                Outcome::NotSolvable
            },
        }
    }

    fn solve(&self, stats: &mut SolveStats, board: &Board, pieces: &[Vec<Piece>]) -> (result:
        SolveResult) {
        let root: BoardID = stats.insert_board(None, *board);
        match step(stats, board, pieces, 0, root) {
            Ok(finished) => SolveResult::Solved(finished),
            Err(DumbFailure::NoMorePieces) => SolveResult::NoMorePieces,
            Err(DumbFailure::NotSolvable) => SolveResult::NotSolvable,
        }
    }
}

/// Searches depth-first for a way to fill `board` with one variant of each
/// group of `pieces`, in order, and returns the first solved board. Every
/// board that comes up is entered in `stats` under the board it was made
/// from; the boards made from `board` itself are entered under `parent`.
/// `depth` is the number of pieces placed so far; it has no effect on the
/// result.
pub fn step(
    stats: &mut DumbStats,
    board: &Board,
    pieces: &[Vec<Piece>],
    depth: u16,
    parent: BoardID,
) -> (result: Result<Board, DumbFailure>)
    ensures
        ({
            let s = search(board@, groups_of(pieces@), parent);
            &&& final(stats)@ == old(stats)@.absorb(s.visited, s.skipped)
            &&& match result {
                Ok(finished) => s.found == Some(finished@),
                Err(failure) => s.found is None && failure == failure_of(pieces@.len()),
            }
        }),
    decreases pieces@.len(),
{
    let ghost groups = groups_of(pieces@);
    let ghost start = stats@;
    if pieces.len() == 0 {
        assert(start.absorb(Seq::empty(), 0) =~= start);
        return Err(DumbFailure::NoMorePieces);
    }
    let all_transforms = &pieces[0];
    let rest = slice_subrange(pieces, 1, pieces.len());
    let deeper: u16 = if depth < u16::MAX {
        depth + 1
    } else {
        depth
    };
    proof {
        assert(groups_of(rest@) =~= groups.skip(1));
        assert(groups[0] == views(all_transforms@));
        assert(start.absorb(Seq::empty(), 0) =~= start);
    }
    let mut y: u8 = 0;
    while y < SIDE
        invariant
            y <= SIDE,
            start == old(stats)@,
            groups == groups_of(pieces@),
            groups.len() > 0,
            groups[0] == views(all_transforms@),
            groups_of(rest@) == groups.skip(1),
            rest@.len() < pieces@.len(),
            tried(board@, groups, parent, (y * 8) as nat, 0).found is None,
            stats@ == start.absorb(
                tried(board@, groups, parent, (y * 8) as nat, 0).visited,
                tried(board@, groups, parent, (y * 8) as nat, 0).skipped,
            ),
        decreases SIDE - y,
    {
        let mut x: u8 = 0;
        while x < SIDE
            invariant
                x <= SIDE,
                y < SIDE,
                start == old(stats)@,
                groups == groups_of(pieces@),
                groups.len() > 0,
                groups[0] == views(all_transforms@),
                groups_of(rest@) == groups.skip(1),
                rest@.len() < pieces@.len(),
                tried(board@, groups, parent, (y * 8 + x) as nat, 0).found is None,
                stats@ == start.absorb(
                    tried(board@, groups, parent, (y * 8 + x) as nat, 0).visited,
                    tried(board@, groups, parent, (y * 8 + x) as nat, 0).skipped,
                ),
            decreases SIDE - x,
        {
            let pos = Position::new(x, y);
            let ghost k = (y * 8 + x) as nat;
            let mut v: usize = 0;
            while v < all_transforms.len()
                invariant
                    v <= all_transforms@.len(),
                    x < SIDE,
                    y < SIDE,
                    k == y * 8 + x,
                    pos@ == (x as int, y as int),
                    start == old(stats)@,
                    groups == groups_of(pieces@),
                    groups.len() > 0,
                    groups[0] == views(all_transforms@),
                    groups_of(rest@) == groups.skip(1),
                    rest@.len() < pieces@.len(),
                    tried(board@, groups, parent, k, v as nat).found is None,
                    stats@ == start.absorb(
                        tried(board@, groups, parent, k, v as nat).visited,
                        tried(board@, groups, parent, k, v as nat).skipped,
                    ),
                decreases all_transforms@.len() - v,
            {
                let piece = &all_transforms[v];
                let ghost before = tried(board@, groups, parent, k, v as nat);
                assert(groups[0][v as int] == piece@);
                assert(cell_of(k as int) == pos@);
                if board.can_place_piece(pos, piece) {
                    let mut board_clone = *board;
                    let _ = board_clone.place_piece(pos, piece);
                    let ghost next = board_clone@;
                    let ghost seen = before.visited.push(Visit { parent, cells: next });
                    let new_parent: BoardID = stats.insert_board(Some(parent), board_clone);
                    proof {
                        lemma_absorb_push(start, before.visited, before.skipped, parent, next);
                    }
                    if has_single_cells(&board_clone) {
                        stats.count_skipped();
                        assert(stats@ =~= start.absorb(seen, before.skipped + 1));
                    } else if board_clone.is_solved() {
                        proof {
                            lemma_found_is_final(
                                board@,
                                groups,
                                parent,
                                k,
                                (v + 1) as nat,
                                CELLS as nat,
                                0,
                            );
                        }
                        return Ok(board_clone);
                    } else {
                        let ghost below = search(next, groups.skip(1), board_id(next));
                        let found = step(stats, &board_clone, rest, deeper, new_parent);
                        proof {
                            lemma_absorb_concat(
                                start,
                                seen,
                                before.skipped,
                                below.visited,
                                below.skipped,
                            );
                        }
                        match found {
                            Ok(finished) => {
                                proof {
                                    lemma_found_is_final(
                                        board@,
                                        groups,
                                        parent,
                                        k,
                                        (v + 1) as nat,
                                        CELLS as nat,
                                        0,
                                    );
                                }
                                return Ok(finished);
                            },
                            Err(_) => {},
                        }
                    }
                }
                v += 1;
            }
            x += 1;
        }
        y += 1;
    }
    Err(DumbFailure::NotSolvable)
}

/// Whether the cell next to `position` in `direction` is off the board or
/// occupied.
pub fn has_neighbour(board: &Board, position: &Position, direction: (i8, i8)) -> (closed: bool)
    requires
        position@.0 + direction.0 <= i8::MAX,
        position@.1 + direction.1 <= i8::MAX,
    ensures
        closed == blocked(board@, shift(position@, (direction.0 as int, direction.1 as int))),
{
    let (n_x, n_y) = position.offset(direction);
    if n_x < 0 || n_x > 7 || n_y < 0 || n_y > 7 {
        true
    } else {
        board.get_value(Position::new(n_x as u8, n_y as u8)) != 0
    }
}

/// Whether some empty cell of `board` is closed in on all four sides by
/// occupied cells or the edge of the board.
pub fn has_single_cells(board: &Board) -> (dead: bool)
    ensures
        dead == has_dead_cell(board@),
{
    let mut k: u8 = 0;
    while k < 64
        invariant
            k <= 64,
            forall|j: int| 0 <= j < k ==> !dead_cell(board@, #[trigger] cell_of(j)),
        decreases 64 - k,
    {
        let position = Position::new(k % 8, k / 8);
        assert(position@ == cell_of(k as int));
        if board.get_value(position) == 0 && has_neighbour(board, &position, (-1, 0))
            && has_neighbour(board, &position, (0, -1)) && has_neighbour(board, &position, (1, 0))
            && has_neighbour(board, &position, (0, 1)) {
            return true;
        }
        k += 1;
    }
    false
}

} // verus!
