//! Grid coordinates.

use vstd::prelude::*;

verus! {

/// Side length of the board.
pub const SIDE: u8 = 8;

/// Whether a pair of integers names a cell of the board.
pub open spec fn on_board(p: (int, int)) -> bool {
    0 <= p.0 < SIDE && 0 <= p.1 < SIDE
}

/// Componentwise sum of two integer pairs.
pub open spec fn shift(a: (int, int), b: (int, int)) -> (int, int) {
    (a.0 + b.0, a.1 + b.1)
}

/// A coordinate on the board. Both components are always below [`SIDE`].
#[derive(Clone, Copy, Debug, PartialEq, Eq, Structural, PartialOrd, Ord)]
pub struct Position {
    x: u8,
    y: u8,
}

impl View for Position {
    type V = (int, int);

    closed spec fn view(&self) -> (int, int) {
        (self.x as int, self.y as int)
    }
}

impl Position {
    /// Every position lies on the board.
    #[verifier::type_invariant]
    pub open spec fn wf(self) -> bool {
        on_board(self@)
    }

    /// Creates the position `(x, y)`.
    pub fn new(x: u8, y: u8) -> (p: Position)
        requires
            x < SIDE,
            y < SIDE,
        ensures
            p@ == (x as int, y as int),
    {
        Position { x, y }
    }

    /// The column.
    pub fn x(&self) -> (x: u8)
        ensures
            x == self@.0,
            x < SIDE,
    {
        proof {
            use_type_invariant(self);
        }
        self.x
    }

    /// The row.
    pub fn y(&self) -> (y: u8)
        ensures
            y == self@.1,
            y < SIDE,
    {
        proof {
            use_type_invariant(self);
        }
        self.y
    }

    /// Adds `other` to `self` componentwise. The sum is returned exactly when
    /// it lies on the board.
    pub fn try_add(&self, other: &Position) -> (sum: Option<Position>)
        ensures
            sum is Some <==> on_board(shift(self@, other@)),
            sum is Some ==> sum->0@ == shift(self@, other@),
    {
        proof {
            use_type_invariant(self);
            use_type_invariant(other);
        }
        let x: u8 = self.x + other.x;
        let y: u8 = self.y + other.y;
        if x < SIDE && y < SIDE {
            Some(Position { x, y })
        } else {
            None
        }
    }

    /// Moves `self` by a signed offset. The result may lie off the board.
    pub fn offset(&self, offset: (i8, i8)) -> (moved: (i8, i8))
        requires
            self@.0 + offset.0 <= i8::MAX,
            self@.1 + offset.1 <= i8::MAX,
        ensures
            (moved.0 as int, moved.1 as int) == shift(self@, (offset.0 as int, offset.1 as int)),
    {
        proof {
            use_type_invariant(self);
        }
        let x: i8 = self.x as i8;
        let y: i8 = self.y as i8;
        (x + offset.0, y + offset.1)
    }
}

} // verus!
