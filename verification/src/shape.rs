//! The geometry of shapes: sequences of offsets, their images under the
//! symmetries of the square, and their canonical form.

use vstd::prelude::*;
use vstd::relations::{sorted_by, total_ordering};

verus! {

/// A symmetry of the square that keeps the axes, or the identity.
#[derive(Clone, Copy, Debug, PartialEq, Eq, Structural)]
pub enum Transform {
    /// Leaves every offset where it is.
    Identity,
    /// Quarter turn clockwise: `(x, y)` goes to `(-y, x)`.
    RotateCw,
    /// Quarter turn counter-clockwise: `(x, y)` goes to `(y, -x)`.
    RotateCcw,
    /// Half turn: `(x, y)` goes to `(-x, -y)`.
    Rotate180,
    /// Mirror image along the x axis: `(x, y)` goes to `(-x, y)`.
    FlipX,
    /// Mirror image along the y axis: `(x, y)` goes to `(x, -y)`.
    FlipY,
}

/// Where `kind` sends the offset `p`, in signed coordinates.
pub open spec fn transformed(kind: Transform, p: (int, int)) -> (int, int) {
    match kind {
        Transform::Identity => p,
        Transform::RotateCw => (-p.1, p.0),
        Transform::RotateCcw => (p.1, -p.0),
        Transform::Rotate180 => (-p.0, -p.1),
        Transform::FlipX => (-p.0, p.1),
        Transform::FlipY => (p.0, -p.1),
    }
}

/// The x components of a sequence of offsets.
pub open spec fn xs(s: Seq<(int, int)>) -> Seq<int> {
    s.map_values(|p: (int, int)| p.0)
}

/// The y components of a sequence of offsets.
pub open spec fn ys(s: Seq<(int, int)>) -> Seq<int> {
    s.map_values(|p: (int, int)| p.1)
}

/// The offsets moved so that their least x and their least y are both 0.
pub open spec fn packed(s: Seq<(int, int)>) -> Seq<(int, int)> {
    s.map_values(|p: (int, int)| (p.0 - xs(s).min(), p.1 - ys(s).min()))
}

/// The order in which offsets are kept: by x, then by y.
pub open spec fn lex_leq(a: (int, int), b: (int, int)) -> bool {
    a.0 < b.0 || (a.0 == b.0 && a.1 <= b.1)
}

/// [`lex_leq`] as a relation.
pub open spec fn lex_order() -> spec_fn((int, int), (int, int)) -> bool {
    |a: (int, int), b: (int, int)| lex_leq(a, b)
}

/// The canonical form of a shape: packed against the origin, each offset
/// once, and sorted.
pub open spec fn canonical(s: Seq<(int, int)>) -> Seq<(int, int)> {
    first_occurrences(packed(s)).sort_by(lex_order())
}

/// Whether a sequence of offsets is in canonical form: sorted, without
/// repeats and, unless it is empty, with 0 as its least x and its least y.
pub open spec fn is_canonical(s: Seq<(int, int)>) -> bool {
    &&& sorted_by(s, lex_order())
    &&& s.no_duplicates()
    &&& s.len() > 0 ==> xs(s).min() == 0 && ys(s).min() == 0
}

/// The canonical form of the shape that `kind` makes of `s`.
pub open spec fn image(kind: Transform, s: Seq<(int, int)>) -> Seq<(int, int)> {
    canonical(s.map_values(|p: (int, int)| transformed(kind, p)))
}

/// An upper bound that occurs in a sequence is its maximum.
pub proof fn lemma_greatest(s: Seq<int>, m: int)
    requires
        forall|j: int| 0 <= j < s.len() ==> #[trigger] s[j] <= m,
        exists|j: int| 0 <= j < s.len() && #[trigger] s[j] == m,
    ensures
        s.max() == m,
{
    s.max_ensures();
    let j = choose|j: int| 0 <= j < s.len() && #[trigger] s[j] == m;
    assert(s.contains(s.max()));
    let k = choose|k: int| 0 <= k < s.len() && s[k] == s.max();
    assert(s[k] <= m);
    assert(s[j] <= s.max());
}

/// The eight images of a shape under the symmetries of the square, in the
/// order in which they are tried: the shape itself and its three rotations,
/// then the mirror image and its three rotations.
pub open spec fn candidates(s: Seq<(int, int)>) -> Seq<Seq<(int, int)>> {
    let mirror = image(Transform::FlipX, s);
    seq![
        canonical(s),
        image(Transform::RotateCw, s),
        image(Transform::Rotate180, s),
        image(Transform::RotateCcw, s),
        mirror,
        image(Transform::RotateCw, mirror),
        image(Transform::Rotate180, mirror),
        image(Transform::RotateCcw, mirror),
    ]
}

/// The sequence without its repeats: each value stays where it first occurs.
pub open spec fn first_occurrences<A>(s: Seq<A>) -> Seq<A>
    decreases s.len(),
{
    if s.len() == 0 {
        s
    } else {
        let front = first_occurrences(s.drop_last());
        if front.contains(s.last()) {
            front
        } else {
            front.push(s.last())
        }
    }
}

/// The distinct canonical forms that the symmetries of the square make of a
/// shape, in the order in which they first come up.
pub open spec fn variants(s: Seq<(int, int)>) -> Seq<Seq<(int, int)>> {
    first_occurrences(candidates(s))
}

/// The lexicographic order on offsets is a total order.
pub proof fn lemma_lex_order_total()
    ensures
        total_ordering(lex_order()),
{
    let r = lex_order();
    assert forall|a: (int, int), b: (int, int)| #[trigger] r(a, b) && #[trigger] r(b, a) implies a
        == b by {}
}

/// A lower bound that occurs in a sequence is its minimum.
pub proof fn lemma_least(s: Seq<int>, m: int)
    requires
        forall|j: int| 0 <= j < s.len() ==> m <= #[trigger] s[j],
        exists|j: int| 0 <= j < s.len() && #[trigger] s[j] == m,
    ensures
        s.min() == m,
{
    s.min_ensures();
    let j = choose|j: int| 0 <= j < s.len() && #[trigger] s[j] == m;
    assert(s.contains(s.min()));
    let k = choose|k: int| 0 <= k < s.len() && s[k] == s.min();
    assert(m <= s[k]);
    assert(s.min() <= s[j]);
}

/// Dropping repeats keeps exactly the values of the sequence, each once, the
/// first value first. A sequence without repeats stays as it is.
pub proof fn lemma_first_occurrences<A>(s: Seq<A>)
    ensures
        first_occurrences(s).no_duplicates(),
        forall|x: A| #[trigger] first_occurrences(s).contains(x) ==> s.contains(x),
        forall|x: A| #[trigger] s.contains(x) ==> first_occurrences(s).contains(x),
        s.len() > 0 ==> first_occurrences(s).len() > 0 && first_occurrences(s)[0] == s[0],
        s.no_duplicates() ==> first_occurrences(s) == s,
    decreases s.len(),
{
    let r = first_occurrences(s);
    if s.len() > 0 {
        let head = s.drop_last();
        let front = first_occurrences(head);
        lemma_first_occurrences(head);
        assert forall|x: A| #[trigger] r.contains(x) implies s.contains(x) by {
            let i = choose|i: int| 0 <= i < r.len() && r[i] == x;
            if i < front.len() {
                assert(front[i] == x);
                assert(front.contains(x));
                assert(head.contains(x));
                let j = choose|j: int| 0 <= j < head.len() && head[j] == x;
                assert(s[j] == x);
            } else {
                assert(s[s.len() - 1] == x);
            }
        }
        assert forall|x: A| #[trigger] s.contains(x) implies r.contains(x) by {
            let j = choose|j: int| 0 <= j < s.len() && s[j] == x;
            if j < s.len() - 1 {
                assert(head[j] == x);
                assert(head.contains(x));
                assert(front.contains(x));
                let i = choose|i: int| 0 <= i < front.len() && front[i] == x;
                assert(r[i] == x);
            } else if !front.contains(x) {
                assert(r[front.len() as int] == x);
            }
        }
        if s.len() > 1 {
            assert(head[0] == s[0]);
        }
        if s.no_duplicates() {
            if head.contains(s.last()) {
                let j = choose|j: int| 0 <= j < head.len() && head[j] == s.last();
                assert(s[j] == s[s.len() - 1]);
            }
            assert(r =~= s);
        }
    }
}

/// The canonical form of a shape is canonical and holds exactly the packed
/// offsets of the shape.
pub proof fn lemma_canonical(s: Seq<(int, int)>)
    ensures
        is_canonical(canonical(s)),
        forall|p: (int, int)| #[trigger] canonical(s).contains(p) <==> packed(s).contains(p),
        s.len() > 0 ==> canonical(s).len() > 0,
        s.no_duplicates() ==> canonical(s).len() == s.len(),
{
    let p = packed(s);
    let d = first_occurrences(p);
    let c = canonical(s);
    lemma_lex_order_total();
    lemma_first_occurrences(p);
    d.lemma_sort_by_ensures(lex_order());
    vstd::seq_lib::to_multiset_len(d);
    vstd::seq_lib::to_multiset_len(c);
    d.lemma_multiset_has_no_duplicates();
    c.lemma_multiset_has_no_duplicates_conv();
    assert forall|q: (int, int)| #[trigger] c.contains(q) <==> p.contains(q) by {
        vstd::seq_lib::to_multiset_contains(c, q);
        vstd::seq_lib::to_multiset_contains(d, q);
        assert(d.contains(q) <==> p.contains(q));
    }
    if s.no_duplicates() {
        assert forall|i: int, j: int| 0 <= i < p.len() && 0 <= j < p.len() && i != j implies p[i]
            != p[j] by {
            assert(s[i] != s[j]);
        }
    }
    if s.len() > 0 {
        xs(s).min_ensures();
        ys(s).min_ensures();
        let jx = choose|j: int| 0 <= j < xs(s).len() && xs(s)[j] == xs(s).min();
        let jy = choose|j: int| 0 <= j < ys(s).len() && ys(s)[j] == ys(s).min();
        assert(p[jx].0 == 0);
        assert(p[jy].1 == 0);
        assert forall|i: int| 0 <= i < xs(c).len() implies 0 <= #[trigger] xs(c)[i] by {
            assert(c.contains(c[i]));
            let k = choose|k: int| 0 <= k < p.len() && p[k] == c[i];
            assert(xs(s).min() <= xs(s)[k]);
        }
        assert forall|i: int| 0 <= i < ys(c).len() implies 0 <= #[trigger] ys(c)[i] by {
            assert(c.contains(c[i]));
            let k = choose|k: int| 0 <= k < p.len() && p[k] == c[i];
            assert(ys(s).min() <= ys(s)[k]);
        }
        assert(p.contains(p[jx]));
        assert(p.contains(p[jy]));
        assert(c.contains(p[jx]));
        assert(c.contains(p[jy]));
        let kx = choose|k: int| 0 <= k < c.len() && c[k] == p[jx];
        let ky = choose|k: int| 0 <= k < c.len() && c[k] == p[jy];
        assert(xs(c)[kx] == 0);
        assert(ys(c)[ky] == 0);
        lemma_least(xs(c), 0);
        lemma_least(ys(c), 0);
    }
}

/// Two sorted sequences without repeats that hold the same offsets are equal:
/// a canonical form depends on the covered cells alone.
pub proof fn lemma_sorted_same_cells(a: Seq<(int, int)>, b: Seq<(int, int)>)
    requires
        sorted_by(a, lex_order()),
        sorted_by(b, lex_order()),
        a.no_duplicates(),
        b.no_duplicates(),
        forall|p: (int, int)| a.contains(p) <==> b.contains(p),
    ensures
        a == b,
{
    lemma_lex_order_total();
    a.lemma_multiset_has_no_duplicates();
    b.lemma_multiset_has_no_duplicates();
    assert forall|x: (int, int)| a.to_multiset().count(x) == b.to_multiset().count(x) by {
        vstd::seq_lib::to_multiset_contains(a, x);
        vstd::seq_lib::to_multiset_contains(b, x);
        assert(a.contains(x) == b.contains(x));
        if a.contains(x) {
            assert(a.to_multiset().contains(x));
            assert(b.to_multiset().contains(x));
        }
    }
    assert(a.to_multiset() =~= b.to_multiset());
    vstd::seq_lib::lemma_sorted_unique(a, b, lex_order());
}

/// The canonical form of a shape is the only sorted sequence without repeats
/// that holds exactly the packed offsets of the shape.
pub proof fn lemma_canonical_unique(s: Seq<(int, int)>, c: Seq<(int, int)>)
    requires
        sorted_by(c, lex_order()),
        c.no_duplicates(),
        forall|p: (int, int)| c.contains(p) <==> packed(s).contains(p),
    ensures
        c == canonical(s),
{
    lemma_canonical(s);
    lemma_sorted_same_cells(c, canonical(s));
}

/// A shape in canonical form is its own canonical form.
pub proof fn lemma_canonical_fixed(s: Seq<(int, int)>)
    requires
        is_canonical(s),
    ensures
        canonical(s) == s,
{
    assert(packed(s) =~= s);
    lemma_canonical_unique(s, s);
}

/// The symmetries send different offsets to different offsets.
pub proof fn lemma_transformed_injective(kind: Transform, p: (int, int), q: (int, int))
    requires
        transformed(kind, p) == transformed(kind, q),
    ensures
        p == q,
{
}

/// Every image of a shape is in canonical form. An image of a shape without
/// repeats has as many offsets as the shape.
pub proof fn lemma_image_canonical(kind: Transform, s: Seq<(int, int)>)
    ensures
        is_canonical(image(kind, s)),
        s.len() > 0 ==> image(kind, s).len() > 0,
        s.no_duplicates() ==> image(kind, s).len() == s.len(),
{
    let t = s.map_values(|p: (int, int)| transformed(kind, p));
    if s.no_duplicates() {
        assert forall|i: int, j: int| 0 <= i < t.len() && 0 <= j < t.len() && i != j implies t[i]
            != t[j] by {
            if t[i] == t[j] {
                lemma_transformed_injective(kind, s[i], s[j]);
            }
        }
    }
    lemma_canonical(t);
}

/// Every candidate is in canonical form.
proof fn lemma_candidates_canonical(s: Seq<(int, int)>)
    ensures
        forall|i: int|
            0 <= i < candidates(s).len() ==> is_canonical(#[trigger] candidates(s)[i]) && (s.len()
                > 0 ==> candidates(s)[i].len() > 0),
{
    let mirror = image(Transform::FlipX, s);
    lemma_canonical(s);
    lemma_image_canonical(Transform::RotateCw, s);
    lemma_image_canonical(Transform::Rotate180, s);
    lemma_image_canonical(Transform::RotateCcw, s);
    lemma_image_canonical(Transform::FlipX, s);
    lemma_image_canonical(Transform::RotateCw, mirror);
    lemma_image_canonical(Transform::Rotate180, mirror);
    lemma_image_canonical(Transform::RotateCcw, mirror);
}

/// The variants of a shape: there is at least one, and the first is the
/// canonical form of the shape itself. Every variant is in canonical form,
/// so for a shape that is not empty the least x and the least y of each
/// variant are 0. No two variants cover the same set of cells.
pub proof fn lemma_variants(s: Seq<(int, int)>)
    ensures
        variants(s).len() >= 1,
        variants(s)[0] == canonical(s),
        forall|i: int| 0 <= i < variants(s).len() ==> is_canonical(#[trigger] variants(s)[i]),
        forall|i: int|
            0 <= i < variants(s).len() && s.len() > 0 ==> xs(#[trigger] variants(s)[i]).min() == 0
                && ys(variants(s)[i]).min() == 0,
        forall|i: int, j: int|
            0 <= i < j < variants(s).len() ==> (#[trigger] variants(s)[i]).to_set() != (
                #[trigger] variants(s)[j]).to_set(),
{
    let c = candidates(s);
    let v = variants(s);
    lemma_first_occurrences(c);
    lemma_candidates_canonical(s);
    assert forall|i: int| 0 <= i < v.len() implies is_canonical(#[trigger] v[i]) && (s.len() > 0
        ==> v[i].len() > 0) by {
        assert(v.contains(v[i]));
        assert(c.contains(v[i]));
    }
    assert forall|i: int, j: int| 0 <= i < j < v.len() implies (#[trigger] v[i]).to_set() != (
        #[trigger] v[j]).to_set() by {
        if v[i].to_set() == v[j].to_set() {
            assert forall|p: (int, int)| v[i].contains(p) <==> v[j].contains(p) by {
                assert(v[i].to_set().contains(p) == v[i].contains(p));
                assert(v[j].to_set().contains(p) == v[j].contains(p));
            }
            lemma_sorted_same_cells(v[i], v[j]);
        }
    }
}

} // verus!
