//! Solvers, what they report, and what they record.

use crate::board::Board;
use crate::board_tree::{board_id, BoardID, BoardTree, TreeView};
use crate::piece::{views, Piece, PieceView};
use vstd::prelude::*;

pub mod dumb_solver;
pub mod laws;
pub mod search;

verus! {

/// How a run of a solver ended.
#[derive(Clone, Copy, Debug)]
pub enum SolveResult {
    /// There was no piece to place.
    NoMorePieces,
    /// No placement of the pieces fills the board.
    NotSolvable,
    /// The pieces fill the board in this way.
    Solved(Board),
}

/// What a [`SolveResult`] is, mathematically.
pub enum Outcome {
    NoMorePieces,
    NotSolvable,
    Solved(Seq<u8>),
}

impl View for SolveResult {
    type V = Outcome;

    open spec fn view(&self) -> Outcome {
        match *self {
            SolveResult::NoMorePieces => Outcome::NoMorePieces,
            SolveResult::NotSolvable => Outcome::NotSolvable,
            SolveResult::Solved(board) => Outcome::Solved(board@),
        }
    }
}

/// A board that a search looked at, with the identifier it was entered
/// under.
pub struct Visit {
    pub parent: BoardID,
    pub cells: Seq<u8>,
}

/// `n` as a counter holds it: a counter that has reached the largest value
/// stays there.
pub open spec fn saturated(n: int) -> usize {
    if n > usize::MAX {
        usize::MAX
    } else {
        n as usize
    }
}

/// What the statistics of a run hold, mathematically.
#[verifier::ext_equal]
pub struct StatsView {
    pub tree: TreeView,
    pub checked: usize,
    pub skipped: usize,
}

impl TreeView {
    /// The record after each of `visits` was entered, in order.
    pub open spec fn insert_all(self, visits: Seq<Visit>) -> TreeView
        decreases visits.len(),
    {
        if visits.len() == 0 {
            self
        } else {
            self.insert_all(visits.drop_last()).insert(
                visits.last().cells,
                Some(visits.last().parent),
            )
        }
    }
}

impl StatsView {
    /// The statistics of a run that has not begun.
    pub open spec fn empty() -> StatsView {
        StatsView { tree: TreeView::empty(), checked: 0, skipped: 0 }
    }

    /// The statistics after one more board was entered and counted.
    pub open spec fn record(self, parent: Option<BoardID>, cells: Seq<u8>) -> StatsView {
        StatsView {
            tree: self.tree.insert(cells, parent),
            checked: saturated(self.checked + 1),
            skipped: self.skipped,
        }
    }

    /// The statistics after each of `visits` was entered and counted, and
    /// `skipped` of them were counted as pruned.
    pub open spec fn absorb(self, visits: Seq<Visit>, skipped: nat) -> StatsView {
        StatsView {
            tree: self.tree.insert_all(visits),
            checked: saturated(self.checked + visits.len()),
            skipped: saturated(self.skipped + skipped),
        }
    }
}

/// Entering one more board after a run of visits is the run with that visit
/// at its end.
pub proof fn lemma_absorb_push(
    start: StatsView,
    visits: Seq<Visit>,
    skipped: nat,
    parent: BoardID,
    cells: Seq<u8>,
)
    ensures
        start.absorb(visits, skipped).record(Some(parent), cells) == start.absorb(
            visits.push(Visit { parent, cells }),
            skipped,
        ),
{
    let longer = visits.push(Visit { parent, cells });
    assert(longer.drop_last() =~= visits);
    assert(start.absorb(visits, skipped).record(Some(parent), cells) =~= start.absorb(
        longer,
        skipped,
    ));
}

/// Two runs of visits in a row are one run.
pub proof fn lemma_absorb_concat(
    start: StatsView,
    first: Seq<Visit>,
    skipped_first: nat,
    second: Seq<Visit>,
    skipped_second: nat,
)
    ensures
        start.absorb(first, skipped_first).absorb(second, skipped_second) == start.absorb(
            first + second,
            skipped_first + skipped_second,
        ),
    decreases second.len(),
{
    if second.len() == 0 {
        assert(first + second =~= first);
    } else {
        lemma_absorb_concat(start, first, skipped_first, second.drop_last(), skipped_second);
        assert((first + second).drop_last() =~= first + second.drop_last());
        assert((first + second).last() == second.last());
    }
    assert(start.absorb(first, skipped_first).absorb(second, skipped_second) =~= start.absorb(
        first + second,
        skipped_first + skipped_second,
    ));
}

/// Counters of a run, and the record of the boards it looked at.
pub struct SolveStats {
    tree: BoardTree,
    /// Number of boards that were entered in the record.
    pub num_checked_boards: usize,
    /// Number of boards that were given up because a single empty cell was
    /// closed in.
    pub num_skiped_single: usize,
}

impl View for SolveStats {
    type V = StatsView;

    closed spec fn view(&self) -> StatsView {
        StatsView {
            tree: self.tree@,
            checked: self.num_checked_boards,
            skipped: self.num_skiped_single,
        }
    }
}

impl Default for SolveStats {
    /// The statistics of a run that has not begun.
    fn default() -> (stats: SolveStats)
        ensures
            stats@ == StatsView::empty(),
    {
        SolveStats { tree: BoardTree::default(), num_checked_boards: 0, num_skiped_single: 0 }
    }
}

impl SolveStats {
    /// Number of boards that were entered in the record.
    pub fn checked(&self) -> (n: usize)
        ensures
            n == self@.checked,
    {
        self.num_checked_boards
    }

    /// Number of boards that were pruned.
    pub fn skipped(&self) -> (n: usize)
        ensures
            n == self@.skipped,
    {
        self.num_skiped_single
    }

    /// The record of the boards that were looked at.
    pub fn tree(&self) -> (tree: &BoardTree)
        ensures
            tree@ == self@.tree,
    {
        &self.tree
    }

    /// Enters `board` in the record under `parent`, counts it as checked and
    /// returns its identifier.
    pub fn insert_board(&mut self, parent: Option<BoardID>, board: Board) -> (id: BoardID)
        ensures
            id == board_id(board@),
            final(self)@ == old(self)@.record(parent, board@),
    {
        self.num_checked_boards = self.num_checked_boards.saturating_add(1);
        self.tree.insert(board, parent)
    }

    /// Counts one more board as pruned.
    pub fn count_skipped(&mut self)
        ensures
            final(self)@ == (StatsView {
                skipped: saturated(old(self)@.skipped + 1),
                ..old(self)@
            }),
    {
        self.num_skiped_single = self.num_skiped_single.saturating_add(1);
    }
}

/// The variants of each piece, as a solver is given them.
pub open spec fn groups_of(pieces: Seq<Vec<Piece>>) -> Seq<Seq<PieceView>> {
    pieces.map_values(|group: Vec<Piece>| views(group@))
}

/// A way of filling a board with pieces.
pub trait Solvable {
    /// Whether this solver, started on `board` with `groups` and with the
    /// statistics `before`, ends with `outcome` and the statistics `after`.
    spec fn solves(
        &self,
        board: Seq<u8>,
        groups: Seq<Seq<PieceView>>,
        before: StatsView,
        outcome: Outcome,
        after: StatsView,
    ) -> bool;

    /// Tries to fill `board` with one variant of each group of `pieces`.
    fn solve(&self, stats: &mut SolveStats, board: &Board, pieces: &[Vec<Piece>]) -> (result:
        SolveResult)
        ensures
            self.solves(board@, groups_of(pieces@), old(stats)@, result@, final(stats)@),
    ;
}

/// Runs `solver` on `board` with fresh statistics, and returns what it
/// reported together with what it recorded.
pub fn solve<S: Solvable>(solver: S, board: &Board, pieces: &[Vec<Piece>]) -> (run: (
    SolveResult,
    SolveStats,
))
    ensures
        solver.solves(board@, groups_of(pieces@), StatsView::empty(), run.0@, run.1@),
{
    let mut stats = SolveStats::default();
    let result = solver.solve(&mut stats, board, pieces);
    (result, stats)
}

} // verus!
