//! The geometric questions that the triangulation algorithms ask of a polygon.
//!
//! A polygon with `n` vertices is known to the algorithms of this crate only
//! through the answers of a [`PolygonGeometry`] implementation, whose methods
//! take vertex indices in `0..n`. The implementation decides with its own
//! arithmetic and tolerances; nothing here depends on those answers being
//! consistent with one another, so every algorithm is verified for all of them.
use vstd::prelude::*;
use crate::double_boundary::ChordDirection;
use crate::submap::Chord;

verus! {

/// Orientation of an ordered vertex triple `(o, a, b)`.
#[derive(Debug, Clone, Copy, PartialEq, Eq, Structural)]
pub enum Turn {
    /// Counter-clockwise (the cross product of `oa` and `ob` is clearly positive).
    Left,
    /// Clockwise (the cross product is clearly negative).
    Right,
    /// Collinear within the tolerance.
    Straight,
}

/// Orientation of the whole boundary, from the sign of the signed area.
#[derive(Debug, Clone, Copy, PartialEq, Eq, Structural)]
pub enum Winding {
    CounterClockwise,
    Clockwise,
    /// The absolute signed area is within the tolerance of zero.
    Degenerate,
}

/// Geometric predicates over the vertices `0..n` of a simple polygon.
///
/// Edge `e` is the segment from vertex `e` to vertex `(e + 1) % n`.
pub trait PolygonGeometry: Sized {
    /// The caller's representation of a point of the plane.
    type Point: Copy;

    /// The caller's representation of a coordinate.
    type Scalar: Copy;

    /// The position of vertex `i`.
    fn vertex_point(&self, i: usize) -> Self::Point;

    /// Sign class of the signed area of the polygon.
    fn winding(&self) -> Winding;

    /// The same polygon with its vertex order reversed: vertex `i` of the result
    /// is vertex `n - 1 - i` of `self`.
    fn reversed(&self) -> Self;

    /// Whether vertex `a` comes strictly before vertex `b` in the downward sweep
    /// order: higher `y` first, then smaller `x`, then smaller index.
    fn is_above(&self, a: usize, b: usize) -> bool;

    /// Orientation of the triple of vertices `(o, a, b)`.
    fn turn(&self, o: usize, a: usize, b: usize) -> Turn;

    /// Whether vertex `p` lies in the closed counter-clockwise triangle `(a, b, c)`.
    fn point_in_triangle(&self, p: usize, a: usize, b: usize, c: usize) -> bool;

    /// Whether segment `ab` properly crosses segment `cd` (endpoints excluded).
    fn segments_cross(&self, a: usize, b: usize, c: usize, d: usize) -> bool;

    /// Whether the segment between vertices `u` and `v` is a diagonal: they are
    /// not adjacent, it passes through no other vertex, crosses no edge and its
    /// midpoint lies inside the polygon.
    fn is_valid_diagonal(&self, u: usize, v: usize) -> bool;

    /// Among the edges listed in `edges`, the position of the one whose
    /// crossing with the horizontal line through vertex `v` is the rightmost
    /// crossing at or left of `v`.
    fn edge_left_of(&self, v: usize, edges: &[usize]) -> Option<usize>;

    /// The position in the cycle `cycle` of the first vertex whose turn
    /// `(previous, vertex, next)` is the largest strictly positive one.
    fn sharpest_turn(&self, cycle: &[usize]) -> Option<usize>;

    /// Whether the horizontal direction `dir` points into the interior of the
    /// (counter-clockwise) polygon at vertex `v`.
    fn direction_is_interior(&self, v: usize, dir: ChordDirection) -> bool;

    /// The height of vertex `i`.
    fn vertex_y(&self, i: usize) -> Self::Scalar;

    /// The first hit on the boundary of the horizontal ray from vertex `v` in
    /// direction `dir`, when it lies at a positive distance from `v`: the
    /// point hit and the edge it lies on.
    fn vertex_hit(&self, v: usize, dir: ChordDirection) -> Option<(Self::Point, usize)>;

    /// As [`PolygonGeometry::vertex_hit`], for a ray that only meets the
    /// `num_edges` edges of the subchain starting at edge `start_edge`.
    fn chain_hit(
        &self,
        v: usize,
        dir: ChordDirection,
        start_edge: usize,
        num_edges: usize,
    ) -> Option<(Self::Point, usize)>;

    /// Whether, on edge `hit_edge`, its start vertex is at least as near the
    /// point `hit_pt` as its end vertex.
    fn hit_start_is_nearer(&self, hit_edge: usize, hit_pt: Self::Point) -> bool;

    /// The lowest and highest `y` among the vertices `start, ..., start + num_edges`
    /// (indices taken round the polygon).
    fn chain_y_range(&self, start: usize, num_edges: usize) -> (Self::Scalar, Self::Scalar);

    /// The smallest vertical interval holding the two intervals.
    fn join_y_ranges(
        &self,
        a: (Self::Scalar, Self::Scalar),
        b: (Self::Scalar, Self::Scalar),
    ) -> (Self::Scalar, Self::Scalar);

    /// The common part of two vertical intervals, widened by the tolerance,
    /// when it is not empty.
    fn overlap_band(
        &self,
        a: (Self::Scalar, Self::Scalar),
        b: (Self::Scalar, Self::Scalar),
    ) -> Option<(Self::Scalar, Self::Scalar)>;

    /// Whether the `y` of vertex `v` lies in the closed interval `band`.
    fn vertex_in_band(&self, v: usize, band: (Self::Scalar, Self::Scalar)) -> bool;

    /// Whether height `a` lies strictly below height `b`.
    fn is_lower(&self, a: Self::Scalar, b: Self::Scalar) -> bool;

    /// Whether two chords coincide within the tolerance (same `y`, same ends).
    fn same_chord(
        &self,
        a: &Chord<Self::Point, Self::Scalar>,
        b: &Chord<Self::Point, Self::Scalar>,
    ) -> bool;

    /// Whether the triangles cover, by area, the polygon bounded by the cycle
    /// of vertices `cycle`.
    fn triangles_match_area(&self, cycle: &[usize], triangles: &[[usize; 3]]) -> bool;
}

} // verus!
