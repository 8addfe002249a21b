//! The occupancy grid.

use crate::piece::{offsets_of, Piece};
use crate::position::{on_board, shift, Position, SIDE};
use crate::text::{push_char, push_ruler, ruler};
use vstd::prelude::*;

verus! {

/// Number of cells of the board.
pub const CELLS: usize = 64;

/// Index of the cell `p` in the row-major cell array.
pub open spec fn cell_index(p: (int, int)) -> int {
    p.1 * SIDE + p.0
}

/// The cell at index `k` of the row-major cell array.
pub open spec fn cell_of(k: int) -> (int, int) {
    (k % (SIDE as int), k / (SIDE as int))
}

/// Whether a piece with the given offsets, anchored at `anchor`, covers `p`.
pub open spec fn covers(anchor: (int, int), offsets: Seq<(int, int)>, p: (int, int)) -> bool {
    exists|i: int| 0 <= i < offsets.len() && shift(anchor, #[trigger] offsets[i]) == p
}

/// Whether every cell that the piece would cover is on the board and empty.
pub open spec fn can_place(cells: Seq<u8>, anchor: (int, int), offsets: Seq<(int, int)>) -> bool {
    forall|i: int|
        0 <= i < offsets.len() ==> {
            let p = shift(anchor, #[trigger] offsets[i]);
            on_board(p) && cells[cell_index(p)] == 0
        }
}

/// The cell array after a piece was written: covered cells hold `id`, the
/// others are unchanged.
pub open spec fn placed(cells: Seq<u8>, anchor: (int, int), offsets: Seq<(int, int)>, id: u8) -> Seq<
    u8,
> {
    Seq::new(
        cells.len(),
        |k: int|
            if covers(anchor, offsets, cell_of(k)) {
                id
            } else {
                cells[k]
            },
    )
}

/// Whether no cell is empty.
pub open spec fn solved(cells: Seq<u8>) -> bool {
    forall|k: int| 0 <= k < cells.len() ==> cells[k] != 0
}

/// The character that stands for a cell value in a picture of the board: a
/// blank for an empty cell, `A` for the piece 1, `B` for the piece 2 and so
/// on through the characters that follow in code order, and `?` for the
/// identifiers above 191, which that numbering does not reach within one
/// byte.
pub open spec fn glyph(value: u8) -> char {
    if value == 0 {
        ' '
    } else if value <= 191 {
        (64 + value) as u8 as char
    } else {
        '?'
    }
}

/// The text of one cell in a picture of the board.
pub open spec fn cell_text(value: u8) -> Seq<char> {
    seq![' ', glyph(value), ' ', '|']
}

/// The text of the first `n` cells of row `y`.
pub open spec fn row_cells(cells: Seq<u8>, y: int, n: nat) -> Seq<char>
    decreases n,
{
    if n == 0 {
        Seq::empty()
    } else {
        row_cells(cells, y, (n - 1) as nat) + cell_text(cells[cell_index((n - 1, y))])
    }
}

/// The line of text that shows row `y`.
pub open spec fn row_text(cells: Seq<u8>, y: int) -> Seq<char> {
    seq!['|'] + row_cells(cells, y, SIDE as nat) + seq!['\n']
}

/// The text of the first `n` rows, each followed by a ruler.
pub open spec fn rows_text(cells: Seq<u8>, n: nat) -> Seq<char>
    decreases n,
{
    if n == 0 {
        Seq::empty()
    } else {
        rows_text(cells, (n - 1) as nat) + row_text(cells, n - 1) + ruler(SIDE as nat)
    }
}

/// The picture of the board: a ruler, then each row followed by a ruler.
pub open spec fn board_text(cells: Seq<u8>) -> Seq<char> {
    ruler(SIDE as nat) + rows_text(cells, SIDE as nat)
}

/// Why a piece was not placed.
#[derive(Clone, Copy, Debug, PartialEq, Eq, Structural)]
pub enum PlaceError {
    /// A cell that the piece would cover is off the board or occupied.
    CannotPlace,
}

/// A grid of 8 by 8 cells. A cell holds 0 when it is empty, otherwise the
/// identifier of the piece that covers it.
#[derive(Debug, Clone, Copy, Hash)]
pub struct Board([u8; 64]);

impl View for Board {
    type V = Seq<u8>;

    closed spec fn view(&self) -> Seq<u8> {
        self.0@
    }
}

impl Default for Board {
    /// The empty board.
    fn default() -> (board: Board)
        ensures
            board@ == Seq::new(CELLS as nat, |k: int| 0u8),
    {
        Board([0; 64])
    }
}

impl Board {
    /// The view of a board has one entry per cell.
    pub proof fn lemma_len(self)
        ensures
            self@.len() == CELLS,
    {
    }

    /// The cells in row-major order.
    pub fn as_slice(&self) -> (cells: &[u8; 64])
        ensures
            cells@ == self@,
    {
        &self.0
    }

    /// Whether every cell holds a piece.
    pub fn is_solved(&self) -> (full: bool)
        ensures
            full == solved(self@),
    {
        let mut k: usize = 0;
        while k < CELLS
            invariant
                k <= CELLS,
                forall|j: int| 0 <= j < k ==> self@[j] != 0,
            decreases CELLS - k,
        {
            if self.0[k] == 0 {
                return false;
            }
            k += 1;
        }
        true
    }

    /// The value of the cell at `position`.
    pub fn get_value(&self, position: Position) -> (value: u8)
        ensures
            value == self@[cell_index(position@)],
    {
        let index: usize = position.y() as usize * 8 + position.x() as usize;
        self.0[index]
    }

    /// Overwrites the cell at `position`.
    pub fn set_value(&mut self, position: Position, new_value: u8)
        ensures
            final(self)@ == old(self)@.update(cell_index(position@), new_value),
    {
        let index: usize = position.y() as usize * 8 + position.x() as usize;
        self.0[index] = new_value;
    }

    /// The character that stands for a cell value in a picture of the board.
    pub fn glyph(value: u8) -> (c: char)
        ensures
            c == glyph(value),
    {
        if value == 0 {
            ' '
        } else if value <= 191 {
            (64 + value) as char
        } else {
            '?'
        }
    }

    /// Appends the line of text that shows row `y` to `text`.
    fn push_line(&self, text: &mut String, y: u8)
        requires
            y < SIDE,
        ensures
            final(text)@ == old(text)@ + row_text(self@, y as int),
    {
        push_char(text, '|');
        let mut x: u8 = 0;
        while x < SIDE
            invariant
                x <= SIDE,
                y < SIDE,
                text@ == old(text)@ + seq!['|'] + row_cells(self@, y as int, x as nat),
            decreases SIDE - x,
        {
            let ghost before = text@;
            let value: u8 = self.get_value(Position::new(x, y));
            push_char(text, ' ');
            push_char(text, Board::glyph(value));
            push_char(text, ' ');
            push_char(text, '|');
            assert(text@ =~= before + cell_text(value));
            x += 1;
        }
        push_char(text, '\n');
        assert(text@ =~= old(text)@ + row_text(self@, y as int));
    }

    /// The line of text that shows row `y`: a bar, then for each cell its
    /// character between two blanks and a bar, then a line break.
    pub fn fmt_line(&self, y: u8) -> (line: String)
        requires
            y < SIDE,
        ensures
            line@ == row_text(self@, y as int),
    {
        let mut line = String::new();
        self.push_line(&mut line, y);
        line
    }

    /// The picture of the board as text.
    pub fn render(&self) -> (text: String)
        ensures
            text@ == board_text(self@),
    {
        let mut text = String::new();
        push_ruler(&mut text, SIDE);
        let mut y: u8 = 0;
        while y < SIDE
            invariant
                y <= SIDE,
                text@ == ruler(SIDE as nat) + rows_text(self@, y as nat),
            decreases SIDE - y,
        {
            self.push_line(&mut text, y);
            push_ruler(&mut text, SIDE);
            assert(text@ =~= ruler(SIDE as nat) + rows_text(self@, (y + 1) as nat));
            y += 1;
        }
        text
    }

    /// Whether `piece`, anchored at `top_left`, would cover only cells that
    /// are on the board and empty. The board is not changed.
    pub fn can_place_piece(&self, top_left: Position, piece: &Piece) -> (fits: bool)
        ensures
            fits == can_place(self@, top_left@, piece@.points),
    {
        let points = piece.points();
        let mut i: usize = 0;
        while i < points.len()
            invariant
                i <= points.len(),
                offsets_of(points@) == piece@.points,
                forall|j: int|
                    0 <= j < i ==> {
                        let p = shift(top_left@, #[trigger] piece@.points[j]);
                        on_board(p) && self@[cell_index(p)] == 0
                    },
            decreases points.len() - i,
        {
            assert(piece@.points[i as int] == points[i as int]@);
            match top_left.try_add(&points[i]) {
                Some(p) => {
                    if self.get_value(p) != 0 {
                        return false;
                    }
                },
                None => {
                    return false;
                },
            }
            i += 1;
        }
        true
    }

    /// Writes `piece` at `top_left` if it fits there, and reports an error
    /// without touching the board if it does not.
    pub fn place_piece(&mut self, top_left: Position, piece: &Piece) -> (done: Result<
        (),
        PlaceError,
    >)
        ensures
            can_place(old(self)@, top_left@, piece@.points) ==> done is Ok && final(self)@ == placed(
                old(self)@,
                top_left@,
                piece@.points,
                piece@.id,
            ),
            !can_place(old(self)@, top_left@, piece@.points) ==> done == Err::<(), PlaceError>(
                PlaceError::CannotPlace,
            ) && final(self)@ == old(self)@,
    {
        if !self.can_place_piece(top_left, piece) {
            return Err(PlaceError::CannotPlace);
        }
        let points = piece.points();
        let id: u8 = piece.id();
        let mut i: usize = 0;
        while i < points.len()
            invariant
                i <= points.len(),
                offsets_of(points@) == piece@.points,
                id == piece@.id,
                can_place(old(self)@, top_left@, piece@.points),
                self@ == placed(old(self)@, top_left@, piece@.points.take(i as int), id),
            decreases points.len() - i,
        {
            assert(piece@.points[i as int] == points[i as int]@);
            match top_left.try_add(&points[i]) {
                Some(p) => {
                    self.set_value(p, id);
                    proof {
                        lemma_placed_step(
                            old(self)@,
                            top_left@,
                            piece@.points,
                            i as int,
                            id,
                        );
                    }
                },
                None => {
                    assert(false);
                },
            }
            i += 1;
        }
        assert(piece@.points.take(i as int) == piece@.points);
        Ok(())
    }
}

/// Row-major indexing is a bijection between the cells and `0..64`.
pub proof fn lemma_cell_index(p: (int, int))
    requires
        on_board(p),
    ensures
        0 <= cell_index(p) < CELLS,
        cell_of(cell_index(p)) == p,
{
}

/// Every index below 64 names a cell of the board.
pub proof fn lemma_cell_of(k: int)
    requires
        0 <= k < CELLS,
    ensures
        on_board(cell_of(k)),
        cell_index(cell_of(k)) == k,
{
}

/// A placement is all or nothing: where the piece fits, every cell it covers
/// holds its identifier afterwards and every other cell is as before.
pub proof fn lemma_placed_cells(
    cells: Seq<u8>,
    anchor: (int, int),
    offsets: Seq<(int, int)>,
    id: u8,
)
    requires
        cells.len() == CELLS,
        can_place(cells, anchor, offsets),
    ensures
        placed(cells, anchor, offsets, id).len() == CELLS,
        forall|i: int|
            0 <= i < offsets.len() ==> placed(cells, anchor, offsets, id)[cell_index(
                shift(anchor, #[trigger] offsets[i]),
            )] == id,
        forall|k: int|
            0 <= k < CELLS && !covers(anchor, offsets, #[trigger] cell_of(k)) ==> placed(
                cells,
                anchor,
                offsets,
                id,
            )[k] == cells[k],
{
    assert forall|i: int| 0 <= i < offsets.len() implies placed(
        cells,
        anchor,
        offsets,
        id,
    )[cell_index(shift(anchor, #[trigger] offsets[i]))] == id by {
        lemma_cell_index(shift(anchor, offsets[i]));
    }
}

/// A placement that fits writes to empty cells only: every cell that held a
/// piece holds the same piece afterwards.
pub proof fn lemma_placed_keeps_occupied(
    cells: Seq<u8>,
    anchor: (int, int),
    offsets: Seq<(int, int)>,
    id: u8,
)
    requires
        cells.len() == CELLS,
        can_place(cells, anchor, offsets),
    ensures
        forall|k: int|
            0 <= k < CELLS && cells[k] != 0 ==> #[trigger] placed(cells, anchor, offsets, id)[k]
                == cells[k],
{
    assert forall|k: int| 0 <= k < CELLS && cells[k] != 0 implies #[trigger] placed(
        cells,
        anchor,
        offsets,
        id,
    )[k] == cells[k] by {
        lemma_cell_of(k);
        if covers(anchor, offsets, cell_of(k)) {
            let i = choose|i: int|
                0 <= i < offsets.len() && shift(anchor, #[trigger] offsets[i]) == cell_of(k);
            assert(cells[cell_index(shift(anchor, offsets[i]))] == 0);
        }
    }
}

/// The empty board is not solved.
pub proof fn lemma_empty_not_solved()
    ensures
        !solved(Seq::new(CELLS as nat, |k: int| 0u8)),
{
    let empty = Seq::new(CELLS as nat, |k: int| 0u8);
    assert(empty[0] == 0);
}

/// A placement solves the board exactly when the piece covers every cell
/// that was empty.
pub proof fn lemma_placed_solved(
    cells: Seq<u8>,
    anchor: (int, int),
    offsets: Seq<(int, int)>,
    id: u8,
)
    requires
        cells.len() == CELLS,
        id != 0,
    ensures
        solved(placed(cells, anchor, offsets, id)) <==> forall|k: int|
            0 <= k < CELLS && cells[k] == 0 ==> covers(anchor, offsets, #[trigger] cell_of(k)),
{
    let next = placed(cells, anchor, offsets, id);
    if solved(next) {
        assert forall|k: int| 0 <= k < CELLS && cells[k] == 0 implies covers(
            anchor,
            offsets,
            #[trigger] cell_of(k),
        ) by {
            assert(next[k] != 0);
        }
    }
}

/// Writing the offsets one by one builds up `placed`: after offset `i`, the
/// board is the one where the first `i + 1` offsets are written.
proof fn lemma_placed_step(
    cells: Seq<u8>,
    anchor: (int, int),
    offsets: Seq<(int, int)>,
    i: int,
    id: u8,
)
    requires
        cells.len() == CELLS,
        0 <= i < offsets.len(),
        on_board(shift(anchor, offsets[i])),
    ensures
        placed(cells, anchor, offsets.take(i), id).update(
            cell_index(shift(anchor, offsets[i])),
            id,
        ) == placed(cells, anchor, offsets.take(i + 1), id),
{
    let target = shift(anchor, offsets[i]);
    let before = placed(cells, anchor, offsets.take(i), id);
    let after = placed(cells, anchor, offsets.take(i + 1), id);
    lemma_cell_index(target);
    assert forall|k: int| 0 <= k < CELLS implies before.update(cell_index(target), id)[k]
        == after[k] by {
        lemma_cell_of(k);
        let p = cell_of(k);
        if covers(anchor, offsets.take(i), p) {
            let j = choose|j: int|
                0 <= j < offsets.take(i).len() && shift(anchor, #[trigger] offsets.take(i)[j]) == p;
            assert(offsets.take(i + 1)[j] == offsets.take(i)[j]);
            assert(covers(anchor, offsets.take(i + 1), p));
        } else if k == cell_index(target) {
            assert(offsets.take(i + 1)[i] == offsets[i]);
            assert(covers(anchor, offsets.take(i + 1), p));
        } else {
            if covers(anchor, offsets.take(i + 1), p) {
                let j = choose|j: int|
                    0 <= j < offsets.take(i + 1).len() && shift(
                        anchor,
                        #[trigger] offsets.take(i + 1)[j],
                    ) == p;
                if j < i {
                    assert(offsets.take(i)[j] == offsets.take(i + 1)[j]);
                    assert(covers(anchor, offsets.take(i), p));
                } else {
                    assert(offsets.take(i + 1)[j] == offsets[i]);
                }
            }
        }
    }
    assert(before.update(cell_index(target), id) =~= after);
}

} // verus!
