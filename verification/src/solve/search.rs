//! What the backtracking search finds and looks at, as a mathematical
//! function of the board and the pieces.

use crate::board::{can_place, cell_index, cell_of, placed, solved, CELLS};
use crate::board_tree::{board_id, BoardID};
use crate::piece::PieceView;
use crate::position::{on_board, shift};
use crate::solve::Visit;
use vstd::prelude::*;

verus! {

/// Whether `p` is off the board or occupied.
pub open spec fn blocked(cells: Seq<u8>, p: (int, int)) -> bool {
    !on_board(p) || cells[cell_index(p)] != 0
}

/// Whether `p` is an empty cell whose four neighbours are all blocked.
pub open spec fn dead_cell(cells: Seq<u8>, p: (int, int)) -> bool {
    &&& on_board(p)
    &&& cells[cell_index(p)] == 0
    &&& blocked(cells, shift(p, (-1, 0)))
    &&& blocked(cells, shift(p, (0, -1)))
    &&& blocked(cells, shift(p, (1, 0)))
    &&& blocked(cells, shift(p, (0, 1)))
}

/// Whether some empty cell is closed in on all four sides.
pub open spec fn has_dead_cell(cells: Seq<u8>) -> bool {
    exists|k: int| 0 <= k < CELLS && dead_cell(cells, #[trigger] cell_of(k))
}

/// What a search came to: the solved board if it found one, the boards it
/// looked at in order, and how many of them it pruned.
pub struct Search {
    pub found: Option<Seq<u8>>,
    pub visited: Seq<Visit>,
    pub skipped: nat,
}

/// The search that has looked at nothing.
pub open spec fn nothing() -> Search {
    Search { found: None, visited: Seq::empty(), skipped: 0 }
}

/// The depth-first search for a way to fill `cells` with one variant of each
/// of `groups`, in order. Boards that it looks at are entered under
/// `parent`.
pub open spec fn search(cells: Seq<u8>, groups: Seq<Seq<PieceView>>, parent: BoardID) -> Search
    decreases groups.len(), CELLS + 1, 0nat,
{
    if groups.len() == 0 {
        nothing()
    } else {
        tried(cells, groups, parent, CELLS as nat, 0)
    }
}

/// The part of [`search`] that comes before the candidate `(k, v)`: variant
/// `v` of the first group, anchored at the cell with index `k`. Candidates
/// are ordered by cell, then by variant. A candidate that fits is placed and
/// looked at. If that closes in an empty cell, the board is pruned. If it
/// fills the board, the search ends. Otherwise the search goes on from that
/// board with the remaining groups, and ends if that search finds a solved
/// board.
pub open spec fn tried(
    cells: Seq<u8>,
    groups: Seq<Seq<PieceView>>,
    parent: BoardID,
    k: nat,
    v: nat,
) -> Search
    decreases groups.len(), k, v,
{
    if groups.len() == 0 {
        nothing()
    } else if v > 0 {
        let before = tried(cells, groups, parent, k, (v - 1) as nat);
        if before.found is Some || v > groups[0].len() || k >= CELLS {
            before
        } else {
            let piece = groups[0][v - 1];
            let anchor = cell_of(k as int);
            if !can_place(cells, anchor, piece.points) {
                before
            } else {
                let next = placed(cells, anchor, piece.points, piece.id);
                let seen = before.visited.push(Visit { parent, cells: next });
                if has_dead_cell(next) {
                    Search { found: None, visited: seen, skipped: before.skipped + 1 }
                } else if solved(next) {
                    Search { found: Some(next), visited: seen, skipped: before.skipped }
                } else {
                    let deeper = search(next, groups.skip(1), board_id(next));
                    Search {
                        found: deeper.found,
                        visited: seen + deeper.visited,
                        skipped: before.skipped + deeper.skipped,
                    }
                }
            }
        }
    } else if k > 0 {
        tried(cells, groups, parent, (k - 1) as nat, groups[0].len())
    } else {
        nothing()
    }
}

/// Once a solved board is found, no later candidate is tried.
pub proof fn lemma_found_is_final(
    cells: Seq<u8>,
    groups: Seq<Seq<PieceView>>,
    parent: BoardID,
    k: nat,
    v: nat,
    k2: nat,
    v2: nat,
)
    requires
        groups.len() > 0,
        tried(cells, groups, parent, k, v).found is Some,
        k < k2 || (k == k2 && v <= v2),
    ensures
        tried(cells, groups, parent, k2, v2) == tried(cells, groups, parent, k, v),
    decreases k2, v2,
{
    if k == k2 && v == v2 {
    } else if v2 > 0 {
        lemma_found_is_final(cells, groups, parent, k, v, k2, (v2 - 1) as nat);
    } else {
        if k == (k2 - 1) as nat && v > groups[0].len() {
            lemma_beyond_last_variant(cells, groups, parent, k, v);
        } else {
            lemma_found_is_final(cells, groups, parent, k, v, (k2 - 1) as nat, groups[0].len());
        }
    }
}

/// There is no candidate beyond the last variant of the first group.
proof fn lemma_beyond_last_variant(
    cells: Seq<u8>,
    groups: Seq<Seq<PieceView>>,
    parent: BoardID,
    k: nat,
    v: nat,
)
    requires
        groups.len() > 0,
        v >= groups[0].len(),
    ensures
        tried(cells, groups, parent, k, v) == tried(cells, groups, parent, k, groups[0].len()),
    decreases v,
{
    if v > groups[0].len() {
        lemma_beyond_last_variant(cells, groups, parent, k, (v - 1) as nat);
    }
}

} // verus!
