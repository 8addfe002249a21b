//! Pieces and their symmetry variants.

use crate::position::{on_board, Position, SIDE};
use crate::shape::{
    candidates, canonical, first_occurrences, image, is_canonical, lemma_canonical,
    lemma_canonical_fixed, lemma_greatest, lemma_least, lemma_lex_order_total, lemma_variants,
    lex_leq, lex_order, packed, transformed, variants, xs, ys, Transform,
};
use crate::text::{push_char, push_ruler, ruler};
use vstd::prelude::*;
use vstd::relations::sorted_by;
use vstd::seq_lib::lemma_sorted_unique;

verus! {

/// What a piece is, mathematically: its identifier and its offsets in order.
pub struct PieceView {
    pub id: u8,
    pub points: Seq<(int, int)>,
}

/// The offsets that a sequence of positions stands for.
pub open spec fn offsets_of(points: Seq<Position>) -> Seq<(int, int)> {
    points.map_values(|p: Position| p@)
}

/// A shape that can be placed on the board. The identifier is the value that
/// the board holds in the cells the piece covers. The offsets are kept in
/// canonical form: packed against the origin, each once, sorted by x and
/// then by y. So two pieces that cover the same cells have the same offsets.
#[derive(Debug, PartialEq, Eq)]
pub struct Piece {
    id: u8,
    points: Vec<Position>,
}

impl View for Piece {
    type V = PieceView;

    closed spec fn view(&self) -> PieceView {
        PieceView { id: self.id, points: offsets_of(self.points@) }
    }
}

impl Clone for Piece {
    /// A copy with the same identifier and offsets.
    fn clone(&self) -> (copy: Piece)
        ensures
            copy@ == self@,
    {
        proof {
            use_type_invariant(self);
        }
        let mut points: Vec<Position> = Vec::with_capacity(self.points.len());
        let mut i: usize = 0;
        while i < self.points.len()
            invariant
                i <= self.points.len(),
                points@ == self.points@.take(i as int),
            decreases self.points.len() - i,
        {
            points.push(self.points[i]);
            i += 1;
        }
        assert(points@ == self.points@);
        Piece { id: self.id, points }
    }
}

impl PieceView {
    /// A valid piece has a nonzero identifier and offsets in canonical form
    /// that lie within the bounds of the board.
    pub open spec fn wf(self) -> bool {
        &&& self.id != 0
        &&& is_canonical(self.points)
        &&& forall|i: int| 0 <= i < self.points.len() ==> on_board(#[trigger] self.points[i])
    }

    /// The piece that `kind` makes of this one, in canonical form.
    pub open spec fn transform(self, kind: Transform) -> PieceView {
        PieceView { id: self.id, points: image(kind, self.points) }
    }

    /// The distinct variants of this piece, the piece itself first.
    pub open spec fn variants(self) -> Seq<PieceView> {
        variants(self.points).map_values(
            |points: Seq<(int, int)>| PieceView { id: self.id, points },
        )
    }
}

/// One more than the greatest of `s`, and 0 if `s` is empty.
pub open spec fn extent(s: Seq<int>) -> int {
    if s.len() == 0 {
        0
    } else {
        s.max() + 1
    }
}

/// Width and height of the smallest box at the origin that holds the
/// offsets.
pub open spec fn bounds(points: Seq<(int, int)>) -> (int, int) {
    (extent(xs(points)), extent(ys(points)))
}

/// The text of the cell `(x, y)` in a picture of a shape: a bar, then `X`
/// between two blanks if the shape has the cell, and three blanks if not.
pub open spec fn shape_cell(points: Seq<(int, int)>, x: int, y: int) -> Seq<char> {
    seq!['|', ' ', if points.contains((x, y)) {
        'X'
    } else {
        ' '
    }, ' ']
}

/// The text of the first `n` cells of row `y`.
pub open spec fn shape_cells(points: Seq<(int, int)>, y: int, n: nat) -> Seq<char>
    decreases n,
{
    if n == 0 {
        Seq::empty()
    } else {
        shape_cells(points, y, (n - 1) as nat) + shape_cell(points, n - 1, y)
    }
}

/// The text of the first `n` rows of a picture that is `width` cells wide:
/// each row ends with a bar and a line break and is followed by a ruler.
pub open spec fn shape_rows(points: Seq<(int, int)>, width: nat, n: nat) -> Seq<char>
    decreases n,
{
    if n == 0 {
        Seq::empty()
    } else {
        shape_rows(points, width, (n - 1) as nat) + shape_cells(points, n - 1, width) + seq![
            '|',
            '\n',
        ] + ruler(width)
    }
}

/// The picture of a shape: a ruler, then the rows of its bounding box.
pub open spec fn shape_text(points: Seq<(int, int)>) -> Seq<char> {
    ruler(bounds(points).0 as nat) + shape_rows(
        points,
        bounds(points).0 as nat,
        bounds(points).1 as nat,
    )
}

/// What a sequence of pieces is, mathematically.
pub open spec fn views(pieces: Seq<Piece>) -> Seq<PieceView> {
    pieces.map_values(|piece: Piece| piece@)
}

/// The offsets of each of a sequence of pieces.
pub open spec fn shapes(pieces: Seq<Piece>) -> Seq<Seq<(int, int)>> {
    pieces.map_values(|piece: Piece| piece@.points)
}

impl Piece {
    /// Every piece is valid.
    #[verifier::type_invariant]
    pub closed spec fn inv(self) -> bool {
        self@.wf()
    }

    /// Creates a piece from its identifier and the cells of its shape. The
    /// cells are brought into canonical form: moved so that the least x and
    /// the least y are 0, each cell once, sorted.
    pub fn new(id: u8, points: Vec<Position>) -> (piece: Piece)
        requires
            id != 0,
        ensures
            piece@.id == id,
            piece@.points == canonical(offsets_of(points@)),
            piece@.wf(),
    {
        let signed = signed_points(&points, Transform::Identity);
        proof {
            let same = offsets_of(points@).map_values(
                |p: (int, int)| transformed(Transform::Identity, p),
            );
            assert(same =~= offsets_of(points@));
        }
        let points = canonical_points(&signed, Ghost(low_corner(Transform::Identity)));
        Piece { id, points }
    }

    /// The identifier.
    pub fn id(&self) -> (id: u8)
        ensures
            id == self@.id,
            id != 0,
    {
        proof {
            use_type_invariant(self);
        }
        self.id
    }

    /// The offsets, in canonical order.
    pub fn points(&self) -> (points: &[Position])
        ensures
            offsets_of(points@) == self@.points,
            self@.wf(),
    {
        proof {
            use_type_invariant(self);
        }
        self.points.as_slice()
    }

    /// Width and height of the piece: one more than its greatest x and its
    /// greatest y, and 0 by 0 for a piece without offsets.
    pub fn bounds(&self) -> (size: (u8, u8))
        ensures
            (size.0 as int, size.1 as int) == bounds(self@.points),
            size.0 <= SIDE,
            size.1 <= SIDE,
    {
        let ghost all = self@.points;
        let mut w: u8 = 0;
        let mut h: u8 = 0;
        let mut i: usize = 0;
        while i < self.points.len()
            invariant
                i <= self.points@.len(),
                all == self@.points,
                w <= SIDE,
                h <= SIDE,
                forall|j: int| 0 <= j < i ==> (#[trigger] all[j]).0 < w && all[j].1 < h,
                i == 0 ==> w == 0 && h == 0,
                i > 0 ==> exists|j: int| 0 <= j < i && (#[trigger] all[j]).0 + 1 == w,
                i > 0 ==> exists|j: int| 0 <= j < i && (#[trigger] all[j]).1 + 1 == h,
            decreases self.points@.len() - i,
        {
            let point = &self.points[i];
            assert(all[i as int] == point@);
            proof {
                if i > 0 {
                    let jx = choose|j: int| 0 <= j < i && (#[trigger] all[j]).0 + 1 == w;
                    let jy = choose|j: int| 0 <= j < i && (#[trigger] all[j]).1 + 1 == h;
                    assert(all[jx].0 + 1 == w || point@.0 + 1 > w);
                    assert(all[jy].1 + 1 == h || point@.1 + 1 > h);
                }
            }
            if point.x() + 1 > w {
                w = point.x() + 1;
            }
            if point.y() + 1 > h {
                h = point.y() + 1;
            }
            i += 1;
        }
        proof {
            if i > 0 {
                let jx = choose|j: int| 0 <= j < i && (#[trigger] all[j]).0 + 1 == w;
                let jy = choose|j: int| 0 <= j < i && (#[trigger] all[j]).1 + 1 == h;
                assert(xs(all)[jx] == w - 1);
                assert(ys(all)[jy] == h - 1);
                assert forall|j: int| 0 <= j < xs(all).len() implies #[trigger] xs(all)[j] <= w
                    - 1 by {
                    assert(all[j].0 < w);
                }
                assert forall|j: int| 0 <= j < ys(all).len() implies #[trigger] ys(all)[j] <= h
                    - 1 by {
                    assert(all[j].1 < h);
                }
                lemma_greatest(xs(all), w - 1);
                lemma_greatest(ys(all), h - 1);
            }
        }
        (w, h)
    }

    /// Whether the piece has the offset `point`.
    pub fn check_point(&self, point: Position) -> (has: bool)
        ensures
            has == self@.points.contains(point@),
    {
        holds_point(&self.points, point)
    }

    /// The picture of the piece as text.
    pub fn render(&self) -> (text: String)
        ensures
            text@ == shape_text(self@.points),
    {
        let (w, h) = self.bounds();
        let ghost all = self@.points;
        let mut text = String::new();
        push_ruler(&mut text, w);
        let mut y: u8 = 0;
        while y < h
            invariant
                y <= h,
                h <= SIDE,
                w <= SIDE,
                all == self@.points,
                text@ == ruler(w as nat) + shape_rows(all, w as nat, y as nat),
            decreases h - y,
        {
            let ghost above = text@;
            let mut x: u8 = 0;
            while x < w
                invariant
                    x <= w,
                    y < h,
                    h <= SIDE,
                    w <= SIDE,
                    all == self@.points,
                    text@ == above + shape_cells(all, y as int, x as nat),
                decreases w - x,
            {
                let ghost before = text@;
                let has = self.check_point(Position::new(x, y));
                push_char(&mut text, '|');
                push_char(&mut text, ' ');
                push_char(&mut text, if has {
                    'X'
                } else {
                    ' '
                });
                push_char(&mut text, ' ');
                assert(text@ =~= before + shape_cell(all, x as int, y as int));
                x += 1;
            }
            push_char(&mut text, '|');
            push_char(&mut text, '\n');
            push_ruler(&mut text, w);
            assert(text@ =~= ruler(w as nat) + shape_rows(all, w as nat, (y + 1) as nat));
            y += 1;
        }
        text
    }

    /// Rotates the piece clockwise.
    pub fn rotate_cw(&self) -> (piece: Piece)
        ensures
            piece@ == self@.transform(Transform::RotateCw),
            piece@.wf(),
    {
        self.transform_points(Transform::RotateCw)
    }

    /// Rotates the piece counter-clockwise.
    pub fn rotate_ccw(&self) -> (piece: Piece)
        ensures
            piece@ == self@.transform(Transform::RotateCcw),
            piece@.wf(),
    {
        self.transform_points(Transform::RotateCcw)
    }

    /// Rotates the piece by a half turn.
    pub fn rotate_180(&self) -> (piece: Piece)
        ensures
            piece@ == self@.transform(Transform::Rotate180),
            piece@.wf(),
    {
        self.transform_points(Transform::Rotate180)
    }

    /// Mirrors the piece along the x axis.
    pub fn flip_x(&self) -> (piece: Piece)
        ensures
            piece@ == self@.transform(Transform::FlipX),
            piece@.wf(),
    {
        self.transform_points(Transform::FlipX)
    }

    /// Mirrors the piece along the y axis.
    pub fn flip_y(&self) -> (piece: Piece)
        ensures
            piece@ == self@.transform(Transform::FlipY),
            piece@.wf(),
    {
        self.transform_points(Transform::FlipY)
    }

    /// All distinct variants of the piece under rotation and reflection, in
    /// the order in which they first come up: the piece itself, its three
    /// rotations, its mirror image and the three rotations of that.
    pub fn get_all_transforms(&self) -> (all: Vec<Piece>)
        ensures
            views(all@) == self@.variants(),
            all@.len() >= 1,
            all@[0]@ == self@,
            forall|i: int| 0 <= i < all@.len() ==> (#[trigger] all@[i])@.wf(),
    {
        let mirror = self.flip_x();
        proof {
            use_type_invariant(self);
            lemma_canonical_fixed(self@.points);
        }
        let tried: Vec<Piece> = vec![
            self.clone(),
            self.rotate_cw(),
            self.rotate_180(),
            self.rotate_ccw(),
            mirror.clone(),
            mirror.rotate_cw(),
            mirror.rotate_180(),
            mirror.rotate_ccw(),
        ];
        assert(shapes(tried@) =~= candidates(self@.points));
        let mut all: Vec<Piece> = Vec::new();
        let mut i: usize = 0;
        while i < tried.len()
            invariant
                i <= tried@.len(),
                shapes(all@) == first_occurrences(shapes(tried@).take(i as int)),
                forall|j: int| 0 <= j < tried@.len() ==> (#[trigger] tried@[j])@.wf(),
                forall|j: int| 0 <= j < tried@.len() ==> (#[trigger] tried@[j])@.id == self@.id,
                forall|j: int| 0 <= j < all@.len() ==> (#[trigger] all@[j])@.wf(),
                forall|j: int| 0 <= j < all@.len() ==> (#[trigger] all@[j])@.id == self@.id,
            decreases tried@.len() - i,
        {
            let ghost seen = shapes(tried@).take(i as int);
            let ghost next = shapes(tried@).take(i + 1);
            assert(next.drop_last() =~= seen);
            assert(next.last() == tried@[i as int]@.points);
            if !holds_shape(&all, &tried[i]) {
                let ghost before = shapes(all@);
                all.push(tried[i].clone());
                assert(shapes(all@) =~= before.push(tried@[i as int]@.points));
            }
            i += 1;
        }
        proof {
            assert(shapes(tried@).take(i as int) =~= shapes(tried@));
            assert(views(all@) =~= self@.variants());
            lemma_variants(self@.points);
            assert(views(all@)[0] == all@[0]@);
        }
        all
    }

    /// Applies `kind` to every offset and brings the result into canonical
    /// form.
    fn transform_points(&self, kind: Transform) -> (piece: Piece)
        ensures
            piece@ == self@.transform(kind),
            piece@.wf(),
    {
        proof {
            use_type_invariant(self);
        }
        let signed = signed_points(&self.points, kind);
        let points = canonical_points(&signed, Ghost(low_corner(kind)));
        Piece { id: self.id, points }
    }
}

/// A sequence of signed offsets as pairs of integers.
spec fn ints(s: Seq<(i8, i8)>) -> Seq<(int, int)> {
    s.map_values(|q: (i8, i8)| (q.0 as int, q.1 as int))
}

/// The corner with the least coordinates of the 8 by 8 box into which `kind`
/// sends the board.
spec fn low_corner(kind: Transform) -> (int, int) {
    match kind {
        Transform::Identity => (0, 0),
        Transform::RotateCw => (-7, 0),
        Transform::RotateCcw => (0, -7),
        Transform::Rotate180 => (-7, -7),
        Transform::FlipX => (-7, 0),
        Transform::FlipY => (0, -7),
    }
}

/// Whether `p` lies in the 8 by 8 box whose least corner is `low`.
spec fn in_box(low: (int, int), p: (int, int)) -> bool {
    low.0 <= p.0 <= low.0 + 7 && low.1 <= p.1 <= low.1 + 7
}

/// Applies `kind` to one offset.
fn apply(kind: Transform, point: &Position) -> (q: (i8, i8))
    ensures
        (q.0 as int, q.1 as int) == transformed(kind, point@),
        in_box(low_corner(kind), (q.0 as int, q.1 as int)),
{
    let x: i8 = point.x() as i8;
    let y: i8 = point.y() as i8;
    match kind {
        Transform::Identity => (x, y),
        Transform::RotateCw => (-y, x),
        Transform::RotateCcw => (y, -x),
        Transform::Rotate180 => (-x, -y),
        Transform::FlipX => (-x, y),
        Transform::FlipY => (x, -y),
    }
}

/// Where `kind` sends the given offsets, in signed coordinates and in the
/// order of the offsets.
fn signed_points(points: &Vec<Position>, kind: Transform) -> (signed: Vec<(i8, i8)>)
    ensures
        ints(signed@) == offsets_of(points@).map_values(|p: (int, int)| transformed(kind, p)),
        forall|j: int|
            0 <= j < signed@.len() ==> in_box(low_corner(kind), #[trigger] ints(signed@)[j]),
{
    let ghost src = offsets_of(points@).map_values(|p: (int, int)| transformed(kind, p));
    let mut signed: Vec<(i8, i8)> = Vec::with_capacity(points.len());
    let mut i: usize = 0;
    while i < points.len()
        invariant
            i <= points@.len(),
            signed@.len() == i,
            src == offsets_of(points@).map_values(|p: (int, int)| transformed(kind, p)),
            forall|j: int| 0 <= j < i ==> #[trigger] ints(signed@)[j] == src[j],
            forall|j: int| 0 <= j < i ==> in_box(low_corner(kind), #[trigger] ints(signed@)[j]),
        decreases points@.len() - i,
    {
        let ghost before = ints(signed@);
        let q = apply(kind, &points[i]);
        signed.push(q);
        assert(ints(signed@) =~= before.push((q.0 as int, q.1 as int)));
        i += 1;
    }
    assert(ints(signed@) =~= src);
    signed
}

/// The least x and the least y of the offsets.
fn least_corner(signed: &Vec<(i8, i8)>) -> (least: (i8, i8))
    requires
        signed@.len() > 0,
    ensures
        least.0 == xs(ints(signed@)).min(),
        least.1 == ys(ints(signed@)).min(),
{
    let ghost src = ints(signed@);
    let mut min_x: i8 = signed[0].0;
    let mut min_y: i8 = signed[0].1;
    let mut k: usize = 1;
    assert(xs(src)[0] == min_x && ys(src)[0] == min_y);
    while k < signed.len()
        invariant
            1 <= k <= signed@.len(),
            src == ints(signed@),
            forall|j: int| 0 <= j < k ==> min_x <= #[trigger] xs(src)[j],
            forall|j: int| 0 <= j < k ==> min_y <= #[trigger] ys(src)[j],
            exists|j: int| 0 <= j < k && #[trigger] xs(src)[j] == min_x,
            exists|j: int| 0 <= j < k && #[trigger] ys(src)[j] == min_y,
        decreases signed@.len() - k,
    {
        let ghost wx = choose|j: int| 0 <= j < k && #[trigger] xs(src)[j] == min_x;
        let ghost wy = choose|j: int| 0 <= j < k && #[trigger] ys(src)[j] == min_y;
        assert(xs(src)[k as int] == signed@[k as int].0);
        assert(ys(src)[k as int] == signed@[k as int].1);
        if signed[k].0 < min_x {
            min_x = signed[k].0;
        }
        if signed[k].1 < min_y {
            min_y = signed[k].1;
        }
        k += 1;
        assert(xs(src)[wx] == min_x || xs(src)[k - 1] == min_x);
        assert(ys(src)[wy] == min_y || ys(src)[k - 1] == min_y);
    }
    proof {
        lemma_least(xs(src), min_x as int);
        lemma_least(ys(src), min_y as int);
    }
    (min_x, min_y)
}

/// The canonical form of the signed offsets, which all lie in the 8 by 8
/// box whose least corner is `low`.
fn canonical_points(signed: &Vec<(i8, i8)>, Ghost(low): Ghost<(int, int)>) -> (points: Vec<
    Position,
>)
    requires
        -7 <= low.0 <= 0,
        -7 <= low.1 <= 0,
        forall|j: int| 0 <= j < signed@.len() ==> in_box(low, #[trigger] ints(signed@)[j]),
    ensures
        offsets_of(points@) == canonical(ints(signed@)),
        is_canonical(offsets_of(points@)),
        forall|j: int| 0 <= j < points@.len() ==> on_board(#[trigger] offsets_of(points@)[j]),
{
    let ghost src = ints(signed@);
    let ghost moved = packed(src);
    let n: usize = signed.len();
    let mut points: Vec<Position> = Vec::with_capacity(n);
    proof {
        lemma_lex_order_total();
        assert(offsets_of(points@) =~= first_occurrences(moved.take(0)));
    }
    if n > 0 {
        let (min_x, min_y) = least_corner(signed);
        let mut m: usize = 0;
        while m < n
            invariant
                m <= n,
                n == signed@.len(),
                src == ints(signed@),
                moved == packed(src),
                min_x == xs(src).min(),
                min_y == ys(src).min(),
                -7 <= low.0 <= 0,
                -7 <= low.1 <= 0,
                forall|j: int| 0 <= j < n ==> in_box(low, #[trigger] src[j]),
                sorted_by(offsets_of(points@), lex_order()),
                offsets_of(points@).to_multiset() == first_occurrences(
                    moved.take(m as int),
                ).to_multiset(),
                forall|j: int|
                    0 <= j < points@.len() ==> on_board(#[trigger] offsets_of(points@)[j]),
            decreases n - m,
        {
            proof {
                xs(src).min_ensures();
                ys(src).min_ensures();
                let jx = choose|j: int| 0 <= j < xs(src).len() && xs(src)[j] == xs(src).min();
                let jy = choose|j: int| 0 <= j < ys(src).len() && ys(src)[j] == ys(src).min();
                assert(in_box(low, src[jx]));
                assert(in_box(low, src[jy]));
                assert(in_box(low, src[m as int]));
                assert(xs(src).min() <= xs(src)[m as int]);
                assert(ys(src).min() <= ys(src)[m as int]);
            }
            let x: u8 = (signed[m].0 - min_x) as u8;
            let y: u8 = (signed[m].1 - min_y) as u8;
            let p = Position::new(x, y);
            let ghost before = offsets_of(points@);
            let ghost front = first_occurrences(moved.take(m as int));
            proof {
                assert(p@ == moved[m as int]);
                assert(moved.take(m + 1).drop_last() =~= moved.take(m as int));
                assert(moved.take(m + 1).last() == p@);
                vstd::seq_lib::to_multiset_contains(before, p@);
                vstd::seq_lib::to_multiset_contains(front, p@);
            }
            if !holds_point(&points, p) {
                insert_sorted(&mut points, p);
                proof {
                    vstd::seq_lib::to_multiset_build(front, p@);
                    assert forall|j: int| 0 <= j < points@.len() implies on_board(
                        #[trigger] offsets_of(points@)[j],
                    ) by {
                        let q = offsets_of(points@)[j];
                        vstd::seq_lib::to_multiset_contains(offsets_of(points@), q);
                        vstd::seq_lib::to_multiset_contains(before, q);
                        if q != p@ {
                            assert(before.contains(q));
                        }
                    }
                }
            }
            m += 1;
        }
    }
    proof {
        assert(moved.take(n as int) =~= moved);
        first_occurrences(moved).lemma_sort_by_ensures(lex_order());
        lemma_sorted_unique(offsets_of(points@), canonical(src), lex_order());
        lemma_canonical(src);
    }
    points
}

/// Whether `p` is one of `points`.
fn holds_point(points: &Vec<Position>, p: Position) -> (found: bool)
    ensures
        found == offsets_of(points@).contains(p@),
{
    let mut i: usize = 0;
    while i < points.len()
        invariant
            i <= points@.len(),
            forall|j: int| 0 <= j < i ==> offsets_of(points@)[j] != p@,
        decreases points@.len() - i,
    {
        let q = &points[i];
        assert(offsets_of(points@)[i as int] == q@);
        if q.x() == p.x() && q.y() == p.y() {
            return true;
        }
        i += 1;
    }
    false
}

/// Puts `p` into a sorted sequence of positions, behind the positions that
/// do not come after it.
fn insert_sorted(points: &mut Vec<Position>, p: Position)
    requires
        sorted_by(offsets_of(old(points)@), lex_order()),
    ensures
        sorted_by(offsets_of(final(points)@), lex_order()),
        offsets_of(final(points)@).to_multiset() == offsets_of(old(points)@).to_multiset().insert(
            p@,
        ),
{
    let at: usize = insert_index(points, p);
    let ghost before = offsets_of(points@);
    points.insert(at, p);
    proof {
        let after = offsets_of(points@);
        assert(after =~= before.insert(at as int, p@));
        vstd::seq_lib::to_multiset_insert(before, at as int, p@);
        assert forall|a: int, b: int| 0 <= a < b < after.len() implies lex_leq(
            after[a],
            after[b],
        ) by {
            if b < at {
                assert(lex_order()(before[a], before[b]));
            } else if b == at {
                assert(lex_leq(before[a], p@));
            } else if a == at {
                assert(lex_leq(p@, before[at as int]));
                if b - 1 > at {
                    assert(lex_order()(before[at as int], before[b - 1]));
                }
            } else if a < at {
                assert(lex_order()(before[a], before[b - 1]));
            } else {
                assert(lex_order()(before[a - 1], before[b - 1]));
            }
        }
    }
}

/// Whether two pieces have the same offsets in the same order.
fn same_shape(a: &Piece, b: &Piece) -> (same: bool)
    ensures
        same == (a@.points == b@.points),
{
    let left = a.points();
    let right = b.points();
    if left.len() != right.len() {
        assert(a@.points.len() != b@.points.len());
        return false;
    }
    let mut i: usize = 0;
    while i < left.len()
        invariant
            i <= left@.len(),
            left@.len() == right@.len(),
            offsets_of(left@) == a@.points,
            offsets_of(right@) == b@.points,
            forall|j: int| 0 <= j < i ==> a@.points[j] == b@.points[j],
        decreases left@.len() - i,
    {
        assert(a@.points[i as int] == left@[i as int]@);
        assert(b@.points[i as int] == right@[i as int]@);
        if left[i].x() != right[i].x() || left[i].y() != right[i].y() {
            return false;
        }
        i += 1;
    }
    assert(a@.points =~= b@.points);
    true
}

/// Whether one of `pieces` has the offsets of `piece`.
fn holds_shape(pieces: &Vec<Piece>, piece: &Piece) -> (found: bool)
    ensures
        found == shapes(pieces@).contains(piece@.points),
{
    let mut i: usize = 0;
    while i < pieces.len()
        invariant
            i <= pieces@.len(),
            forall|j: int| 0 <= j < i ==> shapes(pieces@)[j] != piece@.points,
        decreases pieces@.len() - i,
    {
        if same_shape(&pieces[i], piece) {
            assert(shapes(pieces@)[i as int] == piece@.points);
            return true;
        }
        i += 1;
    }
    false
}

/// The first index of a sorted sequence whose offset comes after `p`.
fn insert_index(points: &Vec<Position>, p: Position) -> (at: usize)
    ensures
        at <= points@.len(),
        forall|j: int| 0 <= j < at ==> lex_leq(#[trigger] offsets_of(points@)[j], p@),
        at < points@.len() ==> lex_leq(p@, offsets_of(points@)[at as int]),
{
    let mut at: usize = 0;
    while at < points.len()
        invariant
            at <= points@.len(),
            forall|j: int| 0 <= j < at ==> lex_leq(#[trigger] offsets_of(points@)[j], p@),
        decreases points@.len() - at,
    {
        let q = &points[at];
        assert(offsets_of(points@)[at as int] == q@);
        if p.x() < q.x() || (p.x() == q.x() && p.y() < q.y()) {
            return at;
        }
        at += 1;
    }
    at
}

} // verus!
