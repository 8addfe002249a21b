//! What the search guarantees, stated without reference to the order in
//! which it tries its candidates.

use crate::board::{can_place, cell_of, lemma_placed_keeps_occupied, placed, solved, CELLS};
use crate::board_tree::{board_id, BoardID};
use crate::piece::PieceView;
use crate::solve::dumb_solver::DumbSolver;
use crate::solve::search::{has_dead_cell, lemma_found_is_final, search, tried};
use crate::solve::{Outcome, Solvable, StatsView, Visit};
use vstd::prelude::*;

verus! {

/// Whether variant `v` of the first group fits on `cells` at the cell with
/// index `k`.
pub open spec fn fits(cells: Seq<u8>, groups: Seq<Seq<PieceView>>, k: nat, v: nat) -> bool {
    &&& groups.len() > 0
    &&& k < CELLS
    &&& v < groups[0].len()
    &&& can_place(cells, cell_of(k as int), groups[0][v as int].points)
}

/// The board after variant `v` of the first group was placed at the cell
/// with index `k`.
pub open spec fn after(cells: Seq<u8>, groups: Seq<Seq<PieceView>>, k: nat, v: nat) -> Seq<u8> {
    placed(cells, cell_of(k as int), groups[0][v as int].points, groups[0][v as int].id)
}

/// Whether `full` comes from `cells` by placing one variant of each of the
/// first groups, in order, so that every placement fits, no placement closes
/// in an empty cell, and the last placement, and no earlier one, fills the
/// board.
pub open spec fn fills(cells: Seq<u8>, groups: Seq<Seq<PieceView>>, full: Seq<u8>) -> bool
    decreases groups.len(),
{
    groups.len() > 0 && exists|k: nat, v: nat|
        {
            &&& #[trigger] fits(cells, groups, k, v)
            &&& !has_dead_cell(after(cells, groups, k, v))
            &&& if solved(after(cells, groups, k, v)) {
                full == after(cells, groups, k, v)
            } else {
                fills(after(cells, groups, k, v), groups.skip(1), full)
            }
        }
}

/// [`fills`], with the first placement given.
pub open spec fn fills_by(
    cells: Seq<u8>,
    groups: Seq<Seq<PieceView>>,
    full: Seq<u8>,
    k: nat,
    v: nat,
) -> bool {
    &&& fits(cells, groups, k, v)
    &&& !has_dead_cell(after(cells, groups, k, v))
    &&& if solved(after(cells, groups, k, v)) {
        full == after(cells, groups, k, v)
    } else {
        fills(after(cells, groups, k, v), groups.skip(1), full)
    }
}

/// A first placement shows that the pieces fill the board.
pub proof fn lemma_fills_by(
    cells: Seq<u8>,
    groups: Seq<Seq<PieceView>>,
    full: Seq<u8>,
    k: nat,
    v: nat,
)
    requires
        fills_by(cells, groups, full, k, v),
    ensures
        fills(cells, groups, full),
{
}

/// Where the pieces fill the board, there is a first placement.
pub proof fn lemma_fills_first(cells: Seq<u8>, groups: Seq<Seq<PieceView>>, full: Seq<u8>) -> (at:
    (nat, nat))
    requires
        fills(cells, groups, full),
    ensures
        fills_by(cells, groups, full, at.0, at.1),
{
    choose|k: nat, v: nat|
        {
            &&& #[trigger] fits(cells, groups, k, v)
            &&& !has_dead_cell(after(cells, groups, k, v))
            &&& if solved(after(cells, groups, k, v)) {
                full == after(cells, groups, k, v)
            } else {
                fills(after(cells, groups, k, v), groups.skip(1), full)
            }
        }
}

/// A board that the pieces fill is solved and has no closed-in empty cell.
pub proof fn lemma_fills_solved(cells: Seq<u8>, groups: Seq<Seq<PieceView>>, full: Seq<u8>)
    requires
        fills(cells, groups, full),
    ensures
        solved(full),
        !has_dead_cell(full),
    decreases groups.len(),
{
    let (k, v) = lemma_fills_first(cells, groups, full);
    if !solved(after(cells, groups, k, v)) {
        lemma_fills_solved(after(cells, groups, k, v), groups.skip(1), full);
    }
}

/// The pieces fill the board without touching what was there: every cell
/// that held a piece to begin with holds the same piece in the full board.
pub proof fn lemma_fills_keeps_occupied(
    cells: Seq<u8>,
    groups: Seq<Seq<PieceView>>,
    full: Seq<u8>,
)
    requires
        cells.len() == CELLS,
        fills(cells, groups, full),
    ensures
        full.len() == CELLS,
        forall|j: int| 0 <= j < CELLS && cells[j] != 0 ==> #[trigger] full[j] == cells[j],
    decreases groups.len(),
{
    let (k, v) = lemma_fills_first(cells, groups, full);
    let piece = groups[0][v as int];
    let next = after(cells, groups, k, v);
    lemma_placed_keeps_occupied(cells, cell_of(k as int), piece.points, piece.id);
    if !solved(next) {
        lemma_fills_keeps_occupied(next, groups.skip(1), full);
        assert forall|j: int| 0 <= j < CELLS && cells[j] != 0 implies #[trigger] full[j]
            == cells[j] by {
            assert(next[j] == cells[j]);
        }
    }
}

/// The board that a search finds is one that the pieces fill: it comes from
/// the given board by placements that fit, and it is solved.
pub proof fn lemma_search_sound(cells: Seq<u8>, groups: Seq<Seq<PieceView>>, parent: BoardID)
    ensures
        search(cells, groups, parent).found matches Some(full) ==> fills(cells, groups, full),
    decreases groups.len(), CELLS + 1, 0nat,
{
    if groups.len() > 0 {
        lemma_tried_sound(cells, groups, parent, CELLS as nat, 0);
    }
}

/// The board that a search finds is solved and has no closed-in empty cell.
pub proof fn lemma_found_is_solved(cells: Seq<u8>, groups: Seq<Seq<PieceView>>, parent: BoardID)
    ensures
        search(cells, groups, parent).found matches Some(full) ==> solved(full) && !has_dead_cell(
            full,
        ),
{
    lemma_search_sound(cells, groups, parent);
    if search(cells, groups, parent).found is Some {
        lemma_fills_solved(cells, groups, search(cells, groups, parent).found->0);
    }
}

/// [`lemma_search_sound`] for the candidates before `(k, v)`.
proof fn lemma_tried_sound(
    cells: Seq<u8>,
    groups: Seq<Seq<PieceView>>,
    parent: BoardID,
    k: nat,
    v: nat,
)
    ensures
        tried(cells, groups, parent, k, v).found matches Some(full) ==> fills(cells, groups, full),
    decreases groups.len(), k, v,
{
    if groups.len() == 0 {
    } else if v > 0 {
        let before = tried(cells, groups, parent, k, (v - 1) as nat);
        lemma_tried_sound(cells, groups, parent, k, (v - 1) as nat);
        if !(before.found is Some || v > groups[0].len() || k >= CELLS) {
            let w = (v - 1) as nat;
            if fits(cells, groups, k, w) {
                let next = after(cells, groups, k, w);
                if has_dead_cell(next) {
                } else if solved(next) {
                    lemma_fills_by(cells, groups, next, k, w);
                } else {
                    lemma_search_sound(next, groups.skip(1), board_id(next));
                    let deeper = search(next, groups.skip(1), board_id(next));
                    if deeper.found is Some {
                        lemma_fills_by(cells, groups, deeper.found->0, k, w);
                    }
                }
            }
        }
    } else if k > 0 {
        lemma_tried_sound(cells, groups, parent, (k - 1) as nat, groups[0].len());
    }
}

/// Where the pieces can fill the board, the search finds a solved board. So
/// a search that finds none shows that no placement of the pieces that
/// avoids closed-in cells fills the board.
pub proof fn lemma_search_complete(
    cells: Seq<u8>,
    groups: Seq<Seq<PieceView>>,
    parent: BoardID,
    full: Seq<u8>,
)
    requires
        fills(cells, groups, full),
    ensures
        search(cells, groups, parent).found is Some,
    decreases groups.len(),
{
    let (k, v) = lemma_fills_first(cells, groups, full);
    let w = v + 1;
    let before = tried(cells, groups, parent, k, v);
    let next = after(cells, groups, k, v);
    if before.found is None && !solved(next) {
        lemma_search_complete(next, groups.skip(1), board_id(next), full);
    }
    assert(tried(cells, groups, parent, k, w as nat).found is Some);
    lemma_found_is_final(cells, groups, parent, k, w as nat, CELLS as nat, 0);
}

/// The identifier under which a search enters its boards has no effect on
/// what it finds, on the boards it looks at, or on the number it prunes.
pub proof fn lemma_search_ignores_parent(
    cells: Seq<u8>,
    groups: Seq<Seq<PieceView>>,
    one: BoardID,
    other: BoardID,
)
    ensures
        search(cells, groups, one).found == search(cells, groups, other).found,
        search(cells, groups, one).skipped == search(cells, groups, other).skipped,
        boards(search(cells, groups, one).visited) == boards(search(cells, groups, other).visited),
{
    if groups.len() > 0 {
        lemma_tried_ignores_parent(cells, groups, one, other, CELLS as nat, 0);
    }
}

/// The boards of a run of visits, in order.
pub open spec fn boards(visits: Seq<Visit>) -> Seq<Seq<u8>> {
    visits.map_values(|visit: Visit| visit.cells)
}

/// [`lemma_search_ignores_parent`] for the candidates before `(k, v)`.
proof fn lemma_tried_ignores_parent(
    cells: Seq<u8>,
    groups: Seq<Seq<PieceView>>,
    one: BoardID,
    other: BoardID,
    k: nat,
    v: nat,
)
    ensures
        tried(cells, groups, one, k, v).found == tried(cells, groups, other, k, v).found,
        tried(cells, groups, one, k, v).skipped == tried(cells, groups, other, k, v).skipped,
        boards(tried(cells, groups, one, k, v).visited) == boards(
            tried(cells, groups, other, k, v).visited,
        ),
    decreases k, v,
{
    let left = tried(cells, groups, one, k, v);
    let right = tried(cells, groups, other, k, v);
    if groups.len() == 0 {
    } else if v > 0 {
        let w = (v - 1) as nat;
        let l = tried(cells, groups, one, k, w);
        let r = tried(cells, groups, other, k, w);
        lemma_tried_ignores_parent(cells, groups, one, other, k, w);
        if l.found is None && fits(cells, groups, k, w) {
            let next = after(cells, groups, k, w);
            let l_seen = l.visited.push(Visit { parent: one, cells: next });
            let r_seen = r.visited.push(Visit { parent: other, cells: next });
            assert(boards(l_seen) =~= boards(l.visited).push(next));
            assert(boards(r_seen) =~= boards(r.visited).push(next));
            if !has_dead_cell(next) && !solved(next) {
                let deeper = search(next, groups.skip(1), board_id(next)).visited;
                assert(boards(l_seen + deeper) =~= boards(l_seen) + boards(deeper));
                assert(boards(r_seen + deeper) =~= boards(r_seen) + boards(deeper));
            }
        }
    } else if k > 0 {
        lemma_tried_ignores_parent(cells, groups, one, other, (k - 1) as nat, groups[0].len());
    }
}

/// How many of `visits` have a closed-in empty cell.
pub open spec fn pruned(visits: Seq<Visit>) -> nat
    decreases visits.len(),
{
    if visits.len() == 0 {
        0
    } else {
        pruned(visits.drop_last()) + if has_dead_cell(visits.last().cells) {
            1nat
        } else {
            0nat
        }
    }
}

/// The pruned boards of two runs of visits add up.
proof fn lemma_pruned_concat(first: Seq<Visit>, second: Seq<Visit>)
    ensures
        pruned(first + second) == pruned(first) + pruned(second),
    decreases second.len(),
{
    if second.len() == 0 {
        assert(first + second =~= first);
    } else {
        lemma_pruned_concat(first, second.drop_last());
        assert((first + second).drop_last() =~= first + second.drop_last());
        assert((first + second).last() == second.last());
    }
}

/// The search counts as skipped exactly the boards it looked at that have a
/// closed-in empty cell; the board it finds is not among them.
pub proof fn lemma_skipped_counts_pruned(
    cells: Seq<u8>,
    groups: Seq<Seq<PieceView>>,
    parent: BoardID,
)
    ensures
        search(cells, groups, parent).skipped == pruned(search(cells, groups, parent).visited),
    decreases groups.len(), CELLS + 1, 0nat,
{
    if groups.len() > 0 {
        lemma_tried_counts_pruned(cells, groups, parent, CELLS as nat, 0);
    }
}

/// [`lemma_skipped_counts_pruned`] for the candidates before `(k, v)`.
proof fn lemma_tried_counts_pruned(
    cells: Seq<u8>,
    groups: Seq<Seq<PieceView>>,
    parent: BoardID,
    k: nat,
    v: nat,
)
    ensures
        tried(cells, groups, parent, k, v).skipped == pruned(
            tried(cells, groups, parent, k, v).visited,
        ),
    decreases groups.len(), k, v,
{
    if groups.len() == 0 {
    } else if v > 0 {
        let before = tried(cells, groups, parent, k, (v - 1) as nat);
        lemma_tried_counts_pruned(cells, groups, parent, k, (v - 1) as nat);
        if !(before.found is Some || v > groups[0].len() || k >= CELLS) {
            let w = (v - 1) as nat;
            if fits(cells, groups, k, w) {
                let next = after(cells, groups, k, w);
                let seen = before.visited.push(Visit { parent, cells: next });
                assert(seen.drop_last() =~= before.visited);
                if !has_dead_cell(next) && !solved(next) {
                    let deeper = search(next, groups.skip(1), board_id(next));
                    lemma_skipped_counts_pruned(next, groups.skip(1), board_id(next));
                    lemma_pruned_concat(seen, deeper.visited);
                }
            }
        }
    } else if k > 0 {
        lemma_tried_counts_pruned(cells, groups, parent, (k - 1) as nat, groups[0].len());
    }
}

/// Whether visit `j` was made from visit `i`, a board that was neither
/// pruned nor solved.
pub open spec fn made_from(visits: Seq<Visit>, i: int, j: int) -> bool {
    &&& 0 <= i < j
    &&& visits[j].parent == board_id(visits[i].cells)
    &&& !has_dead_cell(visits[i].cells)
    &&& !solved(visits[i].cells)
}

/// Whether visit `j` was made from the board that the search began with, or
/// from an earlier visit that was neither pruned nor solved.
pub open spec fn descends(visits: Seq<Visit>, parent: BoardID, j: int) -> bool {
    visits[j].parent == parent || exists|i: int| made_from(visits, i, j)
}

/// The search goes on only from boards that it did not prune: every board
/// it looks at was made from the board it began with, or from an earlier
/// board without a closed-in empty cell.
pub proof fn lemma_visits_descend(cells: Seq<u8>, groups: Seq<Seq<PieceView>>, parent: BoardID)
    ensures
        forall|j: int|
            0 <= j < search(cells, groups, parent).visited.len() ==> descends(
                search(cells, groups, parent).visited,
                parent,
                j,
            ),
    decreases groups.len(), CELLS + 1, 0nat,
{
    if groups.len() > 0 {
        lemma_tried_descend(cells, groups, parent, CELLS as nat, 0);
    }
}

/// [`lemma_visits_descend`] for the candidates before `(k, v)`.
proof fn lemma_tried_descend(
    cells: Seq<u8>,
    groups: Seq<Seq<PieceView>>,
    parent: BoardID,
    k: nat,
    v: nat,
)
    ensures
        forall|j: int|
            0 <= j < tried(cells, groups, parent, k, v).visited.len() ==> descends(
                tried(cells, groups, parent, k, v).visited,
                parent,
                j,
            ),
    decreases groups.len(), k, v,
{
    let now = tried(cells, groups, parent, k, v).visited;
    if groups.len() == 0 {
    } else if v > 0 {
        let before = tried(cells, groups, parent, k, (v - 1) as nat);
        lemma_tried_descend(cells, groups, parent, k, (v - 1) as nat);
        if !(before.found is Some || v > groups[0].len() || k >= CELLS) {
            let w = (v - 1) as nat;
            if fits(cells, groups, k, w) {
                let next = after(cells, groups, k, w);
                let seen = before.visited.push(Visit { parent, cells: next });
                let id = board_id(next);
                let deeper = search(next, groups.skip(1), id).visited;
                if !has_dead_cell(next) && !solved(next) {
                    lemma_visits_descend(next, groups.skip(1), id);
                }
                assert forall|j: int| 0 <= j < now.len() implies descends(now, parent, j) by {
                    if j < before.visited.len() {
                        assert(descends(before.visited, parent, j));
                        if before.visited[j].parent != parent {
                            let i = choose|i: int| made_from(before.visited, i, j);
                            assert(made_from(now, i, j));
                        }
                    } else if j >= seen.len() {
                        let below = j - seen.len();
                        assert(now[j] == deeper[below]);
                        assert(descends(deeper, id, below));
                        if deeper[below].parent == id {
                            assert(made_from(now, seen.len() - 1, j));
                        } else {
                            let i = choose|i: int| made_from(deeper, i, below);
                            assert(now[seen.len() + i] == deeper[i]);
                            assert(made_from(now, seen.len() + i, j));
                        }
                    }
                }
            }
        }
    } else if k > 0 {
        lemma_tried_descend(cells, groups, parent, (k - 1) as nat, groups[0].len());
    }
}

/// Two runs of the solver on the same board, with the same pieces and the
/// same statistics to begin with, end with the same outcome and the same
/// statistics.
pub proof fn lemma_solver_deterministic(
    board: Seq<u8>,
    groups: Seq<Seq<PieceView>>,
    before: StatsView,
    first: Outcome,
    after_first: StatsView,
    second: Outcome,
    after_second: StatsView,
)
    requires
        DumbSolver.solves(board, groups, before, first, after_first),
        DumbSolver.solves(board, groups, before, second, after_second),
    ensures
        first == second,
        after_first == after_second,
{
}

} // verus!
