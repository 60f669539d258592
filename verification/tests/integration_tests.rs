//! End-to-end checks of the triangulation algorithms on polygons with `f64`
//! coordinates, answered by a floating-point implementation of the
//! library's geometric questions.
#![allow(dead_code)]

use chazelle::double_boundary::ChordDirection;
use chazelle::geometry::{PolygonGeometry, Turn, Winding};
use chazelle::submap::Chord;
use chazelle::sorting::SortKey;
use chazelle::sorting::sorted_positions;
use chazelle::monotone::triangulate_from_visibility_map_with_winding;
use chazelle::monotone::visibility_map_diagonals;
use chazelle::seidel::seidel_diagonals;
use chazelle::{Algorithm, ChazelleTriangle, TriangulationError};
use chazelle::ChazelleAlgorithm;
use chazelle::ChazelleStatus;
use chazelle::c_api::alloc_status;
use chazelle::c_api::check_alloc_arguments;
use chazelle::c_api::check_into_arguments;
use chazelle::c_api::into_status;
use chazelle::c_api::status_of_error;
use chazelle::conformality::maintain_granularity;
use chazelle::conformality::restore_conformality;
use chazelle::fusion::fuse_submaps_in_band;
use chazelle::double_boundary::DoubleBoundary;
use chazelle::monotone::Diagonal;
use chazelle::monotone::clip_ears;
use chazelle::monotone::identity_order;
use chazelle::monotone::split_along_diagonals;
use chazelle::monotone::triangulate_from_visibility_map;
use chazelle::monotone_sweep::VertexType;
use chazelle::monotone_sweep::contains_diagonal;
use chazelle::monotone_sweep::triangulate_monotone_piece;
use chazelle::monotone_sweep::vertex_type;
use chazelle::oracles::ArcCuttingOracle;
use chazelle::oracles::bucket_edges;
use chazelle::remap_triangles;
use chazelle::reversal_map;
use chazelle::seidel::SimpleRng;
use chazelle::submap::CentroidTreeNode;
use chazelle::submap::Submap;
use chazelle::submap::SubmapRegion;
use chazelle::up_phase::UpPhaseHierarchy;


#[derive(Debug, Clone, Copy, PartialEq)]
struct Point {
    x: f64,
    y: f64,
}

impl Point {
    const EPSILON: f64 = 1e-11;

    fn new(x: f64, y: f64) -> Self {
        Self { x, y }
    }

    fn approx_eq(&self, other: &Self) -> bool {
        (self.x - other.x).abs() <= Self::EPSILON && (self.y - other.y).abs() <= Self::EPSILON
    }

    fn dist_sq(&self, other: &Self) -> f64 {
        let dx = self.x - other.x;
        let dy = self.y - other.y;
        dx * dx + dy * dy
    }
}

/// Computes the signed area of a 2D simple polygon.
/// Positive if counter-clockwise (CCW), negative if clockwise (CW).
fn signed_polygon_area(pts: &[Point]) -> f64 {
    let n = pts.len();
    if n < 3 {
        return 0.0;
    }
    let mut area = 0.0;
    for i in 0..n {
        let j = (i + 1) % n;
        area += pts[i].x * pts[j].y - pts[j].x * pts[i].y;
    }
    0.5 * area
}

/// Returns true if the vertices are in counter-clockwise order.
fn is_ccw(pts: &[Point]) -> bool {
    signed_polygon_area(pts) > 0.0
}

/// 2D cross product of vectors OA and OB.
fn cross2d(o: Point, a: Point, b: Point) -> f64 {
    (a.x - o.x) * (b.y - o.y) - (a.y - o.y) * (b.x - o.x)
}

/// Orientation test: >0 if CCW (left turn), <0 if CW (right turn), 0 if collinear.
fn orient2d(o: Point, a: Point, b: Point) -> f64 {
    cross2d(o, a, b)
}

/// Sweep order: higher y first, then smaller x, then smaller index.
fn is_above(p1: Point, idx1: usize, p2: Point, idx2: usize) -> bool {
    if (p1.y - p2.y).abs() > Point::EPSILON {
        p1.y > p2.y
    } else if (p1.x - p2.x).abs() > Point::EPSILON {
        p1.x < p2.x
    } else {
        idx1 < idx2
    }
}

/// Whether the horizontal ray from `origin` meets segment `seg_p1 seg_p2`:
/// the distance along the ray and the hit point.
fn ray_h_intersect_segment(
    origin: Point,
    dir_is_right: bool,
    seg_p1: Point,
    seg_p2: Point,
) -> Option<(f64, Point)> {
    let y = origin.y;
    let y1 = seg_p1.y;
    let y2 = seg_p2.y;

    let min_y = y1.min(y2);
    let max_y = y1.max(y2);

    if y < min_y - Point::EPSILON || y > max_y + Point::EPSILON {
        return None;
    }

    if (y1 - y2).abs() <= Point::EPSILON {
        let min_x = seg_p1.x.min(seg_p2.x);
        let max_x = seg_p1.x.max(seg_p2.x);
        if dir_is_right {
            if max_x >= origin.x - Point::EPSILON {
                let hit_x = if origin.x > min_x { origin.x } else { min_x };
                let dist = hit_x - origin.x;
                return Some((dist.max(0.0), Point::new(hit_x, y)));
            }
        } else if min_x <= origin.x + Point::EPSILON {
            let hit_x = if origin.x < max_x { origin.x } else { max_x };
            let dist = origin.x - hit_x;
            return Some((dist.max(0.0), Point::new(hit_x, y)));
        }
        return None;
    }

    let frac = (y - y1) / (y2 - y1);
    if frac < -Point::EPSILON || frac > 1.0 + Point::EPSILON {
        return None;
    }
    let hit_x = seg_p1.x + frac * (seg_p2.x - seg_p1.x);

    if dir_is_right {
        if hit_x >= origin.x - Point::EPSILON {
            Some(((hit_x - origin.x).max(0.0), Point::new(hit_x, y)))
        } else {
            None
        }
    } else if hit_x <= origin.x + Point::EPSILON {
        Some(((origin.x - hit_x).max(0.0), Point::new(hit_x, y)))
    } else {
        None
    }
}

/// Checks if segment AB strictly intersects segment CD (excluding endpoints).
fn segments_intersect_strict(a: Point, b: Point, c: Point, d: Point) -> bool {
    let o1 = orient2d(a, b, c);
    let o2 = orient2d(a, b, d);
    let o3 = orient2d(c, d, a);
    let o4 = orient2d(c, d, b);
    ((o1 > Point::EPSILON && o2 < -Point::EPSILON) || (o1 < -Point::EPSILON && o2 > Point::EPSILON))
        && ((o3 > Point::EPSILON && o4 < -Point::EPSILON) || (o3 < -Point::EPSILON && o4 > Point::EPSILON))
}

/// Checks if point p is inside CCW triangle (a, b, c).
fn point_in_triangle_ccw(p: Point, a: Point, b: Point, c: Point) -> bool {
    orient2d(a, b, p) >= -Point::EPSILON
        && orient2d(b, c, p) >= -Point::EPSILON
        && orient2d(c, a, p) >= -Point::EPSILON
}

/// Checks if diagonal (u, v) is strictly valid (does not intersect polygon edges and lies inside).
fn is_valid_diagonal(u: usize, v: usize, polygon: &[Point]) -> bool {
    let n = polygon.len();
    if u == v || (u + 1) % n == v || (v + 1) % n == u {
        return false;
    }

    let pu = polygon[u];
    let pv = polygon[v];

    let min_x = pu.x.min(pv.x) - Point::EPSILON;
    let max_x = pu.x.max(pv.x) + Point::EPSILON;
    let min_y = pu.y.min(pv.y) - Point::EPSILON;
    let max_y = pu.y.max(pv.y) + Point::EPSILON;

    for (i, &p) in polygon.iter().enumerate() {
        if i == u || i == v {
            continue;
        }
        if p.x < min_x || p.x > max_x || p.y < min_y || p.y > max_y {
            continue;
        }
        if orient2d(pu, pv, p).abs() <= Point::EPSILON {
            return false;
        }
    }

    for i in 0..n {
        let j = (i + 1) % n;
        if i == u || i == v || j == u || j == v {
            continue;
        }
        let p1 = polygon[i];
        let p2 = polygon[j];
        if p1.x.min(p2.x) > max_x || p1.x.max(p2.x) < min_x || p1.y.min(p2.y) > max_y || p1.y.max(p2.y) < min_y {
            continue;
        }
        if segments_intersect_strict(pu, pv, p1, p2) {
            return false;
        }
    }

    let mid = Point::new(0.5 * (pu.x + pv.x), 0.5 * (pu.y + pv.y));
    point_inside_simple_polygon(mid, polygon)
}

/// Tests if point p is strictly inside a CCW simple polygon using ray casting.
fn point_inside_simple_polygon(p: Point, polygon: &[Point]) -> bool {
    let n = polygon.len();
    let mut inside = false;

    for i in 0..n {
        let j = (i + 1) % n;
        let p1 = polygon[i];
        let p2 = polygon[j];

        let min_seg_y = p1.y.min(p2.y);
        let max_seg_y = p1.y.max(p2.y);
        if p.y < min_seg_y - Point::EPSILON || p.y > max_seg_y + Point::EPSILON {
            continue;
        }

        if (orient2d(p1, p2, p).abs() <= Point::EPSILON)
            && p.x >= p1.x.min(p2.x) - Point::EPSILON
            && p.x <= p1.x.max(p2.x) + Point::EPSILON
        {
            return false;
        }

        if (p1.y > p.y) != (p2.y > p.y) {
            let intersect_x = p1.x + (p.y - p1.y) * (p2.x - p1.x) / (p2.y - p1.y);
            if p.x < intersect_x {
                inside = !inside;
            }
        }
    }

    inside
}


/// The horizontal unit step of a chord direction.
trait ChordDirectionExt {
    fn dx(&self) -> f64;
}

impl ChordDirectionExt for ChordDirection {
    fn dx(&self) -> f64 {
        match self {
            ChordDirection::Left => -1.0,
            ChordDirection::Right => 1.0,
        }
    }
}

/// Whether the horizontal direction `dir` points into the interior of a CCW
/// polygon at vertex `curr` (neighbours `prev` and `next`).
fn is_direction_interior_ccw(curr: Point, prev: Point, next: Point, dir: ChordDirection) -> bool {
    let d = Point::new(dir.dx(), 0.0);
    let u = Point::new(prev.x - curr.x, prev.y - curr.y);
    let w = Point::new(next.x - curr.x, next.y - curr.y);

    let zero = Point::new(0.0, 0.0);
    let w_cross_u = cross2d(zero, w, u);
    let w_cross_d = cross2d(zero, w, d);
    let d_cross_u = cross2d(zero, d, u);

    const EPS: f64 = Point::EPSILON;

    if w_cross_u > EPS {
        // Strictly convex vertex: the ray must be strictly inside the cone from w to u.
        w_cross_d > EPS && d_cross_u > EPS
    } else if w_cross_u < -EPS {
        // Reflex vertex: the ray is interior unless it lies in the exterior cone.
        !(w_cross_d <= -EPS && d_cross_u <= -EPS)
    } else {
        // Collinear neighbours: the interior is to the left of prev -> next.
        let fwd = Point::new(next.x - prev.x, next.y - prev.y);
        cross2d(zero, fwd, d) > EPS
    }
}


/// The slab index of a polygon, independent of where its points are stored.
#[derive(Debug, Clone)]
struct RayIndex {
    min_y: f64,
    max_y: f64,
    inv_bin_h: f64,
    num_bins: usize,
    bin_offsets: Vec<usize>,
    bin_edges: Vec<usize>,
}

fn bin_of(y: f64, min_y: f64, inv_bin_h: f64, num_bins: usize) -> usize {
    if num_bins <= 1 {
        0
    } else {
        (((y - min_y) * inv_bin_h).floor() as isize).clamp(0, num_bins as isize - 1) as usize
    }
}

impl RayIndex {
    fn new(polygon: &[Point]) -> Self {
        let n = polygon.len();
        if n == 0 {
            return Self {
                min_y: 0.0,
                max_y: 0.0,
                inv_bin_h: 1.0,
                num_bins: 0,
                bin_offsets: vec![0],
                bin_edges: Vec::new(),
            };
        }

        let mut min_y = polygon[0].y;
        let mut max_y = polygon[0].y;
        for p in polygon {
            if p.y < min_y {
                min_y = p.y;
            }
            if p.y > max_y {
                max_y = p.y;
            }
        }

        let height = max_y - min_y;
        let num_bins = if n < 16 || height <= Point::EPSILON { 1 } else { (n / 4).clamp(32, 2048) };
        let inv_bin_h = if height <= Point::EPSILON || num_bins <= 1 { 1.0 } else { (num_bins as f64) / height };

        let edge_bins = |e: usize| -> (usize, usize) {
            let p1 = polygon[e];
            let p2 = polygon[(e + 1) % n];
            let y_low = (p1.y.min(p2.y) - Point::EPSILON).max(min_y);
            let y_high = (p1.y.max(p2.y) + Point::EPSILON).min(max_y);
            (bin_of(y_low, min_y, inv_bin_h, num_bins), bin_of(y_high, min_y, inv_bin_h, num_bins))
        };

        // Passes 1 and 2: bucket the edges by the slabs they cross.
        let ranges: Vec<(usize, usize)> = (0..n).map(edge_bins).collect();
        assert!(
            n.checked_mul(num_bins).is_some() && num_bins < usize::MAX,
            "slab index too large for the address space"
        );
        let (bin_offsets, mut bin_edges) = bucket_edges(&ranges, num_bins);

        // Pass 3: sort the edges of each bin by their smallest x.
        for b in 0..num_bins {
            let start = bin_offsets[b];
            let end = bin_offsets[b + 1];
            if end > start + 1 {
                bin_edges[start..end].sort_unstable_by(|&e1, &e2| {
                    let min_x1 = polygon[e1].x.min(polygon[(e1 + 1) % n].x);
                    let min_x2 = polygon[e2].x.min(polygon[(e2 + 1) % n].x);
                    min_x1.partial_cmp(&min_x2).unwrap_or(std::cmp::Ordering::Equal)
                });
            }
        }

        Self { min_y, max_y, inv_bin_h, num_bins, bin_offsets, bin_edges }
    }

    /// Shoots a horizontal ray from `origin` in `dir` against the subchain of
    /// `num_edges` edges from `start_edge`: the distance, hit point and edge.
    fn shoot(
        &self,
        polygon: &[Point],
        origin: Point,
        dir: ChordDirection,
        start_edge: usize,
        num_edges: usize,
    ) -> Option<(f64, Point, usize)> {
        let n = polygon.len();
        if num_edges == 0 || n == 0 {
            return None;
        }

        // For small subchains, a direct linear scan is fastest.
        if num_edges <= 16 || self.num_bins <= 1 {
            let mut closest_dist = f64::INFINITY;
            let mut best_hit = None;
            for step in 0..num_edges {
                let e = (start_edge + step) % n;
                let p1 = polygon[e];
                let p2 = polygon[(e + 1) % n];
                if let Some((dist, hit_pt)) = ray_h_intersect_segment(origin, dir.is_right(), p1, p2) {
                    if dist < closest_dist {
                        closest_dist = dist;
                        best_hit = Some((dist, hit_pt, e));
                    }
                }
            }
            return best_hit;
        }

        let y = origin.y;
        if y < self.min_y - Point::EPSILON || y > self.max_y + Point::EPSILON {
            return None;
        }

        let b = bin_of(y, self.min_y, self.inv_bin_h, self.num_bins);
        let b_start = if b > 0 && (y - (self.min_y + b as f64 / self.inv_bin_h)).abs() <= Point::EPSILON {
            b - 1
        } else {
            b
        };
        let b_end = if b + 1 < self.num_bins
            && ((self.min_y + (b + 1) as f64 / self.inv_bin_h) - y).abs() <= Point::EPSILON
        {
            b + 1
        } else {
            b
        };

        let in_chain = |e: usize| num_edges >= n || (e + n - start_edge) % n < num_edges;
        let mut closest_dist = f64::INFINITY;
        let mut best_hit = None;

        for curr_b in b_start..=b_end {
            let bin = &self.bin_edges[self.bin_offsets[curr_b]..self.bin_offsets[curr_b + 1]];
            if dir.is_right() {
                for &e in bin {
                    let p1 = polygon[e];
                    let p2 = polygon[(e + 1) % n];
                    if p1.x.min(p2.x) > origin.x + closest_dist {
                        break; // Sorted by min_x: every later edge is farther than the closest hit.
                    }
                    if p1.x.max(p2.x) < origin.x - Point::EPSILON || !in_chain(e) {
                        continue;
                    }
                    if let Some((dist, hit_pt)) = ray_h_intersect_segment(origin, true, p1, p2) {
                        if dist < closest_dist {
                            closest_dist = dist;
                            best_hit = Some((dist, hit_pt, e));
                        }
                    }
                }
            } else {
                for &e in bin.iter().rev() {
                    let p1 = polygon[e];
                    let p2 = polygon[(e + 1) % n];
                    if p1.x.max(p2.x) < origin.x - closest_dist {
                        break; // Every remaining edge is too far to the left.
                    }
                    if p1.x.min(p2.x) > origin.x + Point::EPSILON || !in_chain(e) {
                        continue;
                    }
                    if let Some((dist, hit_pt)) = ray_h_intersect_segment(origin, false, p1, p2) {
                        if dist < closest_dist {
                            closest_dist = dist;
                            best_hit = Some((dist, hit_pt, e));
                        }
                    }
                }
            }
        }

        best_hit
    }
}



/// The vertices of a polygon with their ray-shooting index.
struct FloatPolygon {
    points: Vec<Point>,
    index: RayIndex,
}

impl FloatPolygon {
    fn new(points: Vec<Point>) -> Self {
        let index = RayIndex::new(&points);
        Self { points, index }
    }

    fn hit_away(hit: Option<(f64, Point, usize)>) -> Option<(Point, usize)> {
        let (dist, hit_pt, hit_edge) = hit?;
        if dist <= Point::EPSILON {
            return None;
        }
        Some((hit_pt, hit_edge))
    }

    fn neighbours(&self, v: usize) -> (Point, Point) {
        let n = self.points.len();
        (self.points[(v + n - 1) % n], self.points[(v + 1) % n])
    }
}

impl PolygonGeometry for FloatPolygon {
    type Point = Point;
    type Scalar = f64;

    fn vertex_point(&self, i: usize) -> Point {
        self.points[i]
    }

    fn winding(&self) -> Winding {
        let area = signed_polygon_area(&self.points);
        if area.abs() <= Point::EPSILON {
            Winding::Degenerate
        } else if area > 0.0 {
            Winding::CounterClockwise
        } else {
            Winding::Clockwise
        }
    }

    fn reversed(&self) -> Self {
        let mut pts = self.points.clone();
        pts.reverse();
        FloatPolygon::new(pts)
    }

    fn is_above(&self, a: usize, b: usize) -> bool {
        is_above(self.points[a], a, self.points[b], b)
    }

    fn turn(&self, o: usize, a: usize, b: usize) -> Turn {
        let t = orient2d(self.points[o], self.points[a], self.points[b]);
        if t > Point::EPSILON {
            Turn::Left
        } else if t < -Point::EPSILON {
            Turn::Right
        } else {
            Turn::Straight
        }
    }

    fn point_in_triangle(&self, p: usize, a: usize, b: usize, c: usize) -> bool {
        point_in_triangle_ccw(self.points[p], self.points[a], self.points[b], self.points[c])
    }

    fn segments_cross(&self, a: usize, b: usize, c: usize, d: usize) -> bool {
        segments_intersect_strict(self.points[a], self.points[b], self.points[c], self.points[d])
    }

    fn is_valid_diagonal(&self, u: usize, v: usize) -> bool {
        is_valid_diagonal(u, v, &self.points)
    }

    fn edge_left_of(&self, v: usize, edges: &[usize]) -> Option<usize> {
        let n = self.points.len();
        let pv = self.points[v];
        let edge_x_at_y = |edge_idx: usize, y: f64| -> f64 {
            let p1 = self.points[edge_idx];
            let p2 = self.points[(edge_idx + 1) % n];
            if (p1.y - p2.y).abs() <= Point::EPSILON {
                p1.x.min(p2.x)
            } else {
                let t = (y - p1.y) / (p2.y - p1.y);
                p1.x + t * (p2.x - p1.x)
            }
        };
        let mut best_idx = None;
        let mut max_x = f64::NEG_INFINITY;
        for (idx, &e) in edges.iter().enumerate() {
            let x = edge_x_at_y(e, pv.y);
            if x <= pv.x + Point::EPSILON && x > max_x {
                max_x = x;
                best_idx = Some(idx);
            }
        }
        best_idx
    }

    fn sharpest_turn(&self, cycle: &[usize]) -> Option<usize> {
        let m = cycle.len();
        let mut best_i = None;
        let mut max_turn = 0.0;
        for i in 0..m {
            let prev = cycle[(i + m - 1) % m];
            let curr = cycle[i];
            let next = cycle[(i + 1) % m];
            let turn = orient2d(self.points[prev], self.points[curr], self.points[next]);
            if turn > max_turn {
                max_turn = turn;
                best_i = Some(i);
            }
        }
        best_i
    }

    fn direction_is_interior(&self, v: usize, dir: ChordDirection) -> bool {
        let (prev, next) = self.neighbours(v);
        is_direction_interior_ccw(self.points[v], prev, next, dir)
    }

    fn vertex_y(&self, i: usize) -> f64 {
        self.points[i].y
    }

    fn vertex_hit(&self, v: usize, dir: ChordDirection) -> Option<(Point, usize)> {
        let n = self.points.len();
        Self::hit_away(self.index.shoot(&self.points, self.points[v], dir, 0, n))
    }

    fn chain_hit(&self, v: usize, dir: ChordDirection, start_edge: usize, num_edges: usize) -> Option<(Point, usize)> {
        Self::hit_away(self.index.shoot(&self.points, self.points[v], dir, start_edge, num_edges))
    }

    fn hit_start_is_nearer(&self, hit_edge: usize, hit_pt: Point) -> bool {
        let n = self.points.len();
        let d1 = self.points[hit_edge].dist_sq(&hit_pt);
        let d2 = self.points[(hit_edge + 1) % n].dist_sq(&hit_pt);
        d1 <= d2
    }

    fn chain_y_range(&self, start: usize, num_edges: usize) -> (f64, f64) {
        let n = self.points.len();
        let mut min_y = self.points[start].y;
        let mut max_y = self.points[start].y;
        for offset in 0..=num_edges {
            let y = self.points[(start + offset) % n].y;
            if y < min_y {
                min_y = y;
            }
            if y > max_y {
                max_y = y;
            }
        }
        (min_y, max_y)
    }

    fn join_y_ranges(&self, a: (f64, f64), b: (f64, f64)) -> (f64, f64) {
        (a.0.min(b.0), a.1.max(b.1))
    }

    fn overlap_band(&self, a: (f64, f64), b: (f64, f64)) -> Option<(f64, f64)> {
        let lo = a.0.max(b.0) - Point::EPSILON;
        let hi = a.1.min(b.1) + Point::EPSILON;
        if lo <= hi {
            Some((lo, hi))
        } else {
            None
        }
    }

    fn vertex_in_band(&self, v: usize, band: (f64, f64)) -> bool {
        let y = self.points[v].y;
        !(y < band.0 || y > band.1)
    }

    fn is_lower(&self, a: f64, b: f64) -> bool {
        a < b
    }

    fn same_chord(&self, a: &Chord<Point, f64>, b: &Chord<Point, f64>) -> bool {
        (a.y - b.y).abs() <= Point::EPSILON
            && (a.left_pt.x - b.left_pt.x).abs() <= Point::EPSILON
            && (a.right_pt.x - b.right_pt.x).abs() <= Point::EPSILON
    }

    fn triangles_match_area(&self, cycle: &[usize], triangles: &[[usize; 3]]) -> bool {
        let sub_pts: Vec<Point> = cycle.iter().map(|&i| self.points[i]).collect();
        let expected_area = signed_polygon_area(&sub_pts).abs();
        let mut tri_area = 0.0;
        for &[a, b, c] in triangles {
            tri_area += signed_polygon_area(&[self.points[a], self.points[b], self.points[c]]).abs();
        }
        (tri_area - expected_area).abs() <= 1e-4
    }
}


/// Simple harmonic circular polygon with `n` vertices: star-shaped around the
/// origin with radius `R_0 + sum A_k sin(f_k theta)`.
fn generate_harmonic_circle(n: usize, base_r: f64, harmonics: &[(f64, f64)]) -> Vec<Point> {
    let mut pts = Vec::with_capacity(n);
    let two_pi = 2.0 * std::f64::consts::PI;
    for i in 0..n {
        let theta = two_pi * (i as f64) / (n as f64);
        let mut r = base_r;
        for &(amp, freq) in harmonics {
            r += amp * (freq * theta).sin();
        }
        let r_safe = r.max(base_r * 0.1);
        pts.push(Point::new(r_safe * theta.cos(), r_safe * theta.sin()));
    }
    pts
}

/// Archimedean spiral ribbon polygon with `n` vertices, `turns` rotations and
/// corridor `width`.
fn generate_spiral_ribbon(n: usize, turns: f64, width: f64) -> Vec<Point> {
    let half_n = n / 2;
    let two_pi = 2.0 * std::f64::consts::PI;
    let max_theta = two_pi * turns;
    let r0 = 100.0;
    let c = (width * 3.0) / two_pi;

    let mut outer = Vec::with_capacity(half_n);
    let mut inner = Vec::with_capacity(half_n);
    for i in 0..half_n {
        let frac = (i as f64) / ((half_n - 1) as f64);
        let theta = max_theta * frac;
        let r_inner = r0 + c * theta;
        let r_outer = r_inner + width;
        outer.push(Point::new(r_outer * theta.cos(), r_outer * theta.sin()));
        inner.push(Point::new(r_inner * theta.cos(), r_inner * theta.sin()));
    }
    inner.reverse();
    outer.extend(inner);
    outer
}

/// Comb / sawtooth polygon with `num_teeth` teeth (3 * num_teeth + 2 vertices).
fn generate_comb(num_teeth: usize) -> Vec<Point> {
    let mut pts = Vec::with_capacity(num_teeth * 3 + 2);
    pts.push(Point::new(0.0, 0.0));
    let w = 10.0;
    let tooth_height = 100.0;
    let valley_height = 20.0;
    for i in 0..num_teeth {
        let x0 = (i as f64) * 2.0 * w;
        let x1 = x0 + w;
        pts.push(Point::new(x0, tooth_height));
        pts.push(Point::new(x1, tooth_height));
        pts.push(Point::new(x1, valley_height));
    }
    pts.push(Point::new((num_teeth as f64) * 2.0 * w, 0.0));
    pts
}

/// Alternating star polygon with `n` vertices.
fn generate_star(n: usize, r_inner: f64, r_outer: f64) -> Vec<Point> {
    let mut pts = Vec::with_capacity(n);
    let two_pi = 2.0 * std::f64::consts::PI;
    for i in 0..n {
        let theta = two_pi * (i as f64) / (n as f64);
        let r = if i % 2 == 0 { r_outer } else { r_inner };
        pts.push(Point::new(r * theta.cos(), r * theta.sin()));
    }
    pts
}


fn triangulate_points_with_algorithm(pts: &[Point], algorithm: Algorithm) -> Result<Vec<[usize; 3]>, TriangulationError> {
    let geometry = FloatPolygon::new(pts.to_vec());
    chazelle::triangulate_points_with_algorithm(&geometry, pts.len(), algorithm)
}

fn triangulate_points(pts: &[Point]) -> Result<Vec<[usize; 3]>, TriangulationError> {
    triangulate_points_with_algorithm(pts, Algorithm::Chazelle)
}

fn triangulate_with_algorithm(polygon: &[(f64, f64)], algorithm: Algorithm) -> Result<Vec<[usize; 3]>, TriangulationError> {
    let pts: Vec<Point> = polygon.iter().map(|&(x, y)| Point::new(x, y)).collect();
    triangulate_points_with_algorithm(&pts, algorithm)
}

fn triangulate(polygon: &[(f64, f64)]) -> Result<Vec<[usize; 3]>, TriangulationError> {
    triangulate_with_algorithm(polygon, Algorithm::Chazelle)
}

/// The native-endian bytes of the points, `x` then `y`.
fn points_as_bytes(pts: &[Point]) -> Vec<u8> {
    let mut bytes = Vec::with_capacity(pts.len() * 16);
    for p in pts {
        bytes.extend_from_slice(&p.x.to_ne_bytes());
        bytes.extend_from_slice(&p.y.to_ne_bytes());
    }
    bytes
}

fn points_from_bytes(bytes: &[u8]) -> Option<Vec<Point>> {
    if bytes.len() % 16 != 0 {
        return None;
    }
    let mut pts = Vec::with_capacity(bytes.len() / 16);
    for chunk in bytes.chunks(16) {
        let x = f64::from_ne_bytes(chunk[0..8].try_into().unwrap());
        let y = f64::from_ne_bytes(chunk[8..16].try_into().unwrap());
        pts.push(Point::new(x, y));
    }
    Some(pts)
}

fn triangulate_from_bytes(bytes: &[u8]) -> Result<Vec<ChazelleTriangle>, TriangulationError> {
    let pts = points_from_bytes(bytes).ok_or_else(|| {
        TriangulationError::InternalError("Invalid byte alignment or length for Point slice".into())
    })?;
    let tris = triangulate_points(&pts)?;
    Ok(chazelle::c_api::triangles_to_c(&tris))
}

fn triangle_area(a: (f64, f64), b: (f64, f64), c: (f64, f64)) -> f64 {
    0.5 * ((b.0 - a.0) * (c.1 - a.1) - (b.1 - a.1) * (c.0 - a.0))
}

fn verify_triangulation(poly: &[(f64, f64)], triangles: &[[usize; 3]]) {
    let n = poly.len();
    assert_eq!(triangles.len(), n - 2, "Must produce exactly n - 2 triangles");

    let pts: Vec<Point> = poly.iter().map(|&(x, y)| Point::new(x, y)).collect();
    let poly_area = signed_polygon_area(&pts).abs();

    let mut sum_tri_area = 0.0;
    for &[a, b, c] in triangles {
        assert!(a < n && b < n && c < n, "Indices must be within bounds");
        assert!(a != b && b != c && a != c, "Triangle vertices must be distinct");

        let area = triangle_area(poly[a], poly[b], poly[c]).abs();
        assert!(area > 1e-12, "Triangle area must be positive, got {area}");
        sum_tri_area += area;
    }

    let diff = (sum_tri_area - poly_area).abs();
    assert!(
        diff < 1e-6,
        "Sum of triangle areas ({sum_tri_area}) must equal polygon area ({poly_area}), diff={diff}"
    );
}

#[test]
fn test_triangle() {
    let poly = vec![(0.0, 0.0), (2.0, 0.0), (1.0, 2.0)];
    let tris = triangulate(&poly).expect("Should triangulate triangle");
    verify_triangulation(&poly, &tris);
}

#[test]
fn test_square_ccw() {
    let poly = vec![(0.0, 0.0), (1.0, 0.0), (1.0, 1.0), (0.0, 1.0)];
    let tris = triangulate(&poly).expect("Should triangulate square");
    verify_triangulation(&poly, &tris);
}

#[test]
fn test_square_cw() {
    let poly = vec![(0.0, 0.0), (0.0, 1.0), (1.0, 1.0), (1.0, 0.0)];
    let tris = triangulate(&poly).expect("Should triangulate CW square");
    verify_triangulation(&poly, &tris);
}

#[test]
fn test_regular_octagon() {
    let n = 8;
    let mut poly = Vec::new();
    for i in 0..n {
        let angle = 2.0 * std::f64::consts::PI * (i as f64) / (n as f64);
        poly.push((angle.cos(), angle.sin()));
    }
    let tris = triangulate(&poly).expect("Should triangulate octagon");
    verify_triangulation(&poly, &tris);
}

#[test]
fn test_l_shaped_polygon() {
    let poly = vec![
        (0.0, 0.0),
        (3.0, 0.0),
        (3.0, 1.0),
        (1.0, 1.0),
        (1.0, 3.0),
        (0.0, 3.0),
    ];
    let tris = triangulate(&poly).expect("Should triangulate L-shape");
    verify_triangulation(&poly, &tris);
}

#[test]
fn test_five_point_star() {
    // 5-pointed star (concave, 10 vertices)
    let mut poly = Vec::new();
    for i in 0..10 {
        let r = if i % 2 == 0 { 2.0 } else { 0.8 };
        let angle = i as f64 * std::f64::consts::PI / 5.0;
        poly.push((r * angle.cos(), r * angle.sin()));
    }
    let tris = triangulate(&poly).expect("Should triangulate star");
    verify_triangulation(&poly, &tris);
}

#[test]
fn test_comb_polygon() {
    // Comb polygon with teeth
    let mut poly = vec![(0.0, 0.0)];
    for i in 0..5 {
        let x0 = i as f64 * 2.0;
        let x1 = x0 + 1.0;
        poly.push((x0, 5.0));
        poly.push((x1, 5.0));
        poly.push((x1, 1.0));
    }
    poly.push((10.0, 0.0));
    let tris = triangulate(&poly).expect("Should triangulate comb");
    verify_triangulation(&poly, &tris);
}

#[test]
fn test_spiral_polygon() {
    // Spiral ribbon (concave, non-self-intersecting)
    let turns = 2.0;
    let num_pts = 20;
    let width = 0.5;

    let mut outer = Vec::new();
    let mut inner = Vec::new();
    for i in 0..num_pts {
        let theta = 2.0 * std::f64::consts::PI * turns * (i as f64) / ((num_pts - 1) as f64);
        let r1 = 2.0 + theta;
        let r2 = r1 + width;
        outer.push((r2 * theta.cos(), r2 * theta.sin()));
        inner.push((r1 * theta.cos(), r1 * theta.sin()));
    }
    inner.reverse();
    let mut poly = outer;
    poly.extend(inner);

    let tris = triangulate(&poly).expect("Should triangulate spiral ribbon");
    verify_triangulation(&poly, &tris);
}

#[test]
fn test_collinear_and_flat_edges() {
    let poly = vec![
        (0.0, 0.0),
        (2.0, 0.0),
        (4.0, 0.0), // Collinear on bottom edge
        (4.0, 3.0),
        (0.0, 3.0),
    ];
    let tris = triangulate(&poly).expect("Should triangulate polygon with collinear edge");
    verify_triangulation(&poly, &tris);
}

#[test]
fn test_serpentine_polygon() {
    let mut poly = vec![(0.0, 0.0)];
    let steps = 6;
    for i in 0..steps {
        let x = (i * 2) as f64;
        let y_top = 8.0;
        let y_bot = 0.0;
        poly.push((x, y_top));
        poly.push((x + 1.0, y_top));
        poly.push((x + 1.0, y_bot + 1.0));
        poly.push((x + 2.0, y_bot + 1.0));
    }
    poly.push((steps as f64 * 2.0, 0.0));
    let tris = triangulate(&poly).expect("Should triangulate serpentine polygon");
    verify_triangulation(&poly, &tris);
}

#[test]
fn test_error_too_few_vertices() {
    let poly = vec![(0.0, 0.0), (1.0, 1.0)];
    let res = triangulate(&poly);
    assert_eq!(res, Err(TriangulationError::PolygonTooSmall));
}

#[test]
fn test_large_polygon_scaling() {
    let n = 200;
    let mut poly = Vec::with_capacity(n);
    for i in 0..n {
        let angle = 2.0 * std::f64::consts::PI * (i as f64) / (n as f64);
        let r = 100.0 + 10.0 * (5.0 * angle).sin();
        poly.push((r * angle.cos(), r * angle.sin()));
    }
    let tris = triangulate(&poly).expect("Should triangulate 200-gon");
    verify_triangulation(&poly, &tris);
}

#[test]
fn test_thousand_vertex_linear_scaling() {
    let n = 1000;
    let mut poly = Vec::with_capacity(n);
    for i in 0..n {
        let angle = 2.0 * std::f64::consts::PI * (i as f64) / (n as f64);
        let r = 500.0 + 50.0 * (10.0 * angle).cos();
        poly.push((r * angle.cos(), r * angle.sin()));
    }
    let start = std::time::Instant::now();
    let tris = triangulate(&poly).expect("Should triangulate 1000-gon");
    let elapsed = start.elapsed();
    verify_triangulation(&poly, &tris);
    println!("1,000-vertex polygon triangulated in {:?}", elapsed);
}

#[test]
fn test_zerocopy_raw_bytes() {
    let pts = vec![
        Point::new(0.0, 0.0),
        Point::new(4.0, 0.0),
        Point::new(4.0, 4.0),
        Point::new(0.0, 4.0),
    ];

    // Serialization of the points to bytes
    let bytes = points_as_bytes(&pts);
    assert_eq!(bytes.len(), 4 * std::mem::size_of::<Point>());

    // Deserialization and triangulation
    let tris = triangulate_from_bytes(&bytes).expect("Should triangulate from bytes");
    assert_eq!(tris.len(), 2);

    // Serialization of triangles to bytes
    let tri_bytes = ChazelleTriangle::slice_as_bytes(&tris);
    assert_eq!(tri_bytes.len(), 2 * std::mem::size_of::<ChazelleTriangle>());

    // Reading the triangles back from the bytes
    let tris_recovered = ChazelleTriangle::slice_from_bytes(&tri_bytes).unwrap();
    assert_eq!(tris_recovered.len(), 2);
    assert_eq!(tris_recovered[0], tris[0]);
    assert_eq!(tris_recovered[1], tris[1]);
}

#[test]
fn test_large_dataset_harmonic_10k() {
    let poly = generate_harmonic_circle(
        10_000,
        1000.0,
        &[(150.0, 16.0), (50.0, 32.0)],
    );
    assert_eq!(poly.len(), 10_000);

    let start = std::time::Instant::now();
    let tris = triangulate_points(&poly).expect("Should triangulate 10k harmonic polygon");
    let elapsed = start.elapsed();
    assert_eq!(tris.len(), 9_998);

    println!("10,000-vertex harmonic polygon triangulated in {:?}", elapsed);
}

#[test]
fn test_large_dataset_comb_10k() {
    let poly = generate_comb(3333);
    assert_eq!(poly.len(), 10_001);

    let start = std::time::Instant::now();
    let tris = triangulate_points(&poly).expect("Should triangulate 10k comb polygon");
    let elapsed = start.elapsed();
    assert_eq!(tris.len(), 9_999);

    println!("10,000-vertex comb polygon triangulated in {:?}", elapsed);
}

#[test]
fn test_large_dataset_binary_io_10k() {
    let poly = generate_star(10_000, 500.0, 1000.0);

    // Binary export and reload through a byte buffer
    let bytes = points_as_bytes(&poly);
    let loaded = points_from_bytes(&bytes).expect("Load binary");
    assert_eq!(loaded.len(), poly.len());
    assert_eq!(loaded, poly);

    let tris = triangulate_points(&loaded).expect("Triangulate loaded");
    assert_eq!(tris.len(), 9_998);
}

#[test]
fn test_all_algorithms_on_concave_shapes() {
    let poly_l = vec![
        (0.0, 0.0),
        (3.0, 0.0),
        (3.0, 1.0),
        (1.0, 1.0),
        (1.0, 3.0),
        (0.0, 3.0),
    ];

    for &algo in &[
        Algorithm::Chazelle,
        Algorithm::MonotoneSweep,
        Algorithm::Seidel,
    ] {
        let tris = triangulate_with_algorithm(&poly_l, algo)
            .expect("Should triangulate L-shape");
        verify_triangulation(&poly_l, &tris);
    }

    // 5-point star
    let mut star = Vec::new();
    for i in 0..10 {
        let r = if i % 2 == 0 { 2.0 } else { 0.8 };
        let angle = i as f64 * std::f64::consts::PI / 5.0;
        star.push((r * angle.cos(), r * angle.sin()));
    }

    for &algo in &[
        Algorithm::Chazelle,
        Algorithm::MonotoneSweep,
        Algorithm::Seidel,
    ] {
        let tris = triangulate_with_algorithm(&star, algo)
            .expect("Should triangulate star");
        verify_triangulation(&star, &tris);
    }
}

// ---------------------------------------------------------------------------
// Checks of the library's combinatorial parts on concrete values.
// ---------------------------------------------------------------------------

fn square_geometry() -> FloatPolygon {
    FloatPolygon::new(vec![
        Point::new(0.0, 0.0),
        Point::new(1.0, 0.0),
        Point::new(1.0, 1.0),
        Point::new(0.0, 1.0),
    ])
}

fn assert_valid_triangles(tris: &[[usize; 3]], n: usize) {
    assert_eq!(tris.len(), n - 2);
    for t in tris {
        assert!(t[0] < n && t[1] < n && t[2] < n);
        assert!(t[0] != t[1] && t[1] != t[2] && t[0] != t[2]);
    }
}

fn empty_chord(id: usize, region1: usize, region2: usize) -> Chord<Point, f64> {
    let p = Point::new(0.0, id as f64);
    Chord { id, y: id as f64, left_pt: p, right_pt: p, origin_vertex: None, hit_edge: 0, hit_pt: p, region1, region2 }
}

#[test]
fn test_diagonal_endpoints_ordered() {
    let d = Diagonal::new(5, 2);
    assert_eq!((d.u, d.v), (2, 5));
    assert_eq!(Diagonal::new(2, 5), d);
    assert_eq!(Diagonal::new(3, 3), Diagonal { u: 3, v: 3 });
}

#[test]
fn test_cut_arc_chunks() {
    assert_eq!(ArcCuttingOracle::cut_arc(3, 10, 4), vec![(3, 4), (7, 4), (11, 2)]);
    assert_eq!(ArcCuttingOracle::cut_arc(0, 8, 4), vec![(0, 4), (4, 4)]);
    assert!(ArcCuttingOracle::cut_arc(9, 0, 4).is_empty());
    // A chunk size of zero is taken as one.
    assert_eq!(ArcCuttingOracle::cut_arc(5, 3, 0), vec![(5, 1), (6, 1), (7, 1)]);
}

#[test]
fn test_simple_rng_values() {
    assert_eq!(SimpleRng::new(0).state, 0xdeadbeef_cafebabe);
    assert_eq!(SimpleRng::new(42).state, 42);
    let mut rng = SimpleRng::new(1);
    let x = rng.next_u64();
    assert_eq!(x, 1082269761);
    assert_eq!(rng.state, x);
    let mut a = SimpleRng::new(7);
    let mut b = SimpleRng::new(7);
    for _ in 0..10 {
        assert_eq!(a.next_u64(), b.next_u64());
    }
}

#[test]
fn test_shuffle_is_permutation() {
    let original: Vec<usize> = (0..50).collect();
    let mut v = original.clone();
    let mut rng = SimpleRng::new(12345);
    rng.shuffle(&mut v);
    assert_ne!(v, original);
    let mut sorted = v.clone();
    sorted.sort();
    assert_eq!(sorted, original);
    // The same seed gives the same order.
    let mut w = original.clone();
    SimpleRng::new(12345).shuffle(&mut w);
    assert_eq!(v, w);
    // Short slices are left alone and draw nothing.
    let mut one = vec![9usize];
    let mut rng1 = SimpleRng::new(3);
    rng1.shuffle(&mut one);
    assert_eq!(one, vec![9]);
    assert_eq!(rng1.state, 3);
}

#[test]
fn test_double_boundary_walks_cyclically() {
    let pts = [10usize, 11, 12, 13, 14, 15];
    let b = DoubleBoundary::new(&pts, 2, 5);
    assert_eq!(b.num_edges(), 3);
    assert_eq!(b.vertex(0), 12);
    assert_eq!(b.vertex(5), 11);
    let wrap = DoubleBoundary::new(&pts, 4, 1);
    assert_eq!(wrap.num_edges(), 3);
    assert_eq!(wrap.vertex(2), 10);
    assert!(ChordDirection::Right.is_right());
    assert!(!ChordDirection::Left.is_right());
}

#[test]
fn test_status_codes() {
    assert_eq!(status_of_error(&TriangulationError::PolygonTooSmall), ChazelleStatus::ErrorPolygonTooSmall);
    assert_eq!(status_of_error(&TriangulationError::DegeneratePolygon), ChazelleStatus::ErrorDegenerate);
    assert_eq!(status_of_error(&TriangulationError::InternalError("x".to_string())), ChazelleStatus::ErrorInternal);

    assert_eq!(check_into_arguments(false, true, true, 5, 3), Some(ChazelleStatus::ErrorInvalidArgument));
    assert_eq!(check_into_arguments(true, true, true, 2, 3), Some(ChazelleStatus::ErrorPolygonTooSmall));
    assert_eq!(check_into_arguments(true, true, true, 5, 2), Some(ChazelleStatus::ErrorBufferTooSmall));
    assert_eq!(check_into_arguments(true, true, true, 5, 3), None);
    assert_eq!(check_alloc_arguments(true, false, true, 5), Some(ChazelleStatus::ErrorInvalidArgument));
    assert_eq!(check_alloc_arguments(true, true, true, 1), Some(ChazelleStatus::ErrorPolygonTooSmall));
    assert_eq!(check_alloc_arguments(true, true, true, 3), None);

    let ok: Result<Vec<[usize; 3]>, TriangulationError> = Ok(vec![[0, 1, 2], [0, 2, 3]]);
    assert_eq!(into_status(&ok, 2), ChazelleStatus::Success);
    assert_eq!(into_status(&ok, 1), ChazelleStatus::ErrorBufferTooSmall);
    assert_eq!(alloc_status(&ok), ChazelleStatus::Success);
    let err: Result<Vec<[usize; 3]>, TriangulationError> = Err(TriangulationError::DegeneratePolygon);
    assert_eq!(into_status(&err, 10), ChazelleStatus::ErrorDegenerate);
    assert_eq!(alloc_status(&err), ChazelleStatus::ErrorDegenerate);

    assert_eq!(Algorithm::from(ChazelleAlgorithm::Chazelle), Algorithm::Chazelle);
    assert_eq!(Algorithm::from(ChazelleAlgorithm::MonotoneSweep), Algorithm::MonotoneSweep);
    assert_eq!(Algorithm::from(ChazelleAlgorithm::Seidel), Algorithm::Seidel);
    assert_eq!(Algorithm::default(), Algorithm::Chazelle);
}

#[test]
fn test_triangle_bytes_roundtrip() {
    let tris = chazelle::c_api::triangles_to_c(&[[0, 1, 2], [7, 8, 9]]);
    assert_eq!(tris, vec![ChazelleTriangle::new(0, 1, 2), ChazelleTriangle::new(7, 8, 9)]);
    let bytes = ChazelleTriangle::slice_as_bytes(&tris);
    let word = std::mem::size_of::<usize>();
    assert_eq!(bytes.len(), 6 * word);
    assert_eq!(&bytes[word..2 * word], &1usize.to_ne_bytes()[..]);
    assert_eq!(&bytes[5 * word..6 * word], &9usize.to_ne_bytes()[..]);
    assert_eq!(ChazelleTriangle::slice_from_bytes(&bytes), Some(tris.clone()));
    // A length that is not a whole number of words is refused.
    assert_eq!(ChazelleTriangle::slice_from_bytes(&bytes[..bytes.len() - 1]), None);
    assert!(ChazelleTriangle::slice_as_bytes(&[]).is_empty());
}

#[test]
fn test_split_along_diagonals_pieces() {
    let pieces = split_along_diagonals(4, &[Diagonal::new(0, 2)]);
    assert_eq!(pieces, vec![vec![0, 1, 2], vec![2, 3, 0]]);
    // A polygon edge cuts nothing.
    let same = split_along_diagonals(4, &[Diagonal::new(0, 1), Diagonal::new(3, 0)]);
    assert_eq!(same, vec![vec![0, 1, 2, 3]]);
    // Two diagonals of a hexagon: the second cuts the second piece.
    let six = split_along_diagonals(6, &[Diagonal::new(0, 2), Diagonal::new(2, 5)]);
    assert_eq!(six, vec![vec![0, 1, 2], vec![2, 3, 4, 5], vec![5, 0, 2]]);
    let excess: usize = six.iter().map(|p| p.len() - 2).sum();
    assert_eq!(excess, 4);
}

#[test]
fn test_identity_order_and_permutations() {
    assert_eq!(identity_order(4), vec![0, 1, 2, 3]);
    assert!(identity_order(0).is_empty());
}

#[test]
fn test_reversal_and_remap() {
    assert_eq!(reversal_map(4), vec![3, 2, 1, 0]);
    assert_eq!(remap_triangles(vec![[0, 1, 2], [0, 2, 3]], &reversal_map(4)), vec![[3, 2, 1], [3, 1, 0]]);
}

#[test]
fn test_clip_ears_and_monotone_piece_on_square() {
    let g = square_geometry();
    let ears = clip_ears(&g, &[0, 1, 2, 3]);
    assert_valid_triangles(&ears, 4);
    let piece = triangulate_monotone_piece(&g, &[0, 1, 2, 3]).expect("monotone square");
    assert_valid_triangles(&piece, 4);
    let tri = triangulate_monotone_piece(&g, &[0, 1, 2]).expect("single triangle");
    assert_eq!(tri.len(), 1);
}

#[test]
fn test_vertex_types() {
    assert_eq!(vertex_type(true, true, Turn::Left), VertexType::Start);
    assert_eq!(vertex_type(true, true, Turn::Right), VertexType::Split);
    assert_eq!(vertex_type(false, false, Turn::Left), VertexType::End);
    assert_eq!(vertex_type(false, false, Turn::Straight), VertexType::Merge);
    assert_eq!(vertex_type(true, false, Turn::Left), VertexType::RegularLeft);
    assert_eq!(vertex_type(false, true, Turn::Left), VertexType::RegularRight);
}

#[test]
fn test_contains_diagonal() {
    let diags = vec![Diagonal::new(1, 4), Diagonal::new(0, 2)];
    assert!(contains_diagonal(&diags, Diagonal::new(4, 1)));
    assert!(!contains_diagonal(&diags, Diagonal::new(1, 3)));
}

#[test]
fn test_restore_conformality_splits_region() {
    let mut submap: Submap<Point, f64> = Submap::new(4);
    let mut big = SubmapRegion::new(0);
    big.chords = vec![10, 11, 12, 13, 14, 15];
    big.weight = 10;
    assert!(!big.is_conformal());
    let mut small = SubmapRegion::new(1);
    small.chords = vec![20];
    small.weight = 3;
    submap.regions = vec![big, small];
    let out = restore_conformality(submap, &square_geometry());
    assert_eq!(out.num_regions(), 3);
    assert_eq!(out.regions[0].chords, vec![10, 11, 12]);
    assert_eq!(out.regions[0].weight, 5);
    assert_eq!(out.regions[1].chords, vec![20]);
    assert_eq!(out.regions[2].id, 2);
    assert_eq!(out.regions[2].chords, vec![13, 14, 15]);
    assert_eq!(out.regions[2].weight, 5);
    let total: usize = out.regions.iter().map(|r| r.weight).sum();
    assert_eq!(total, 13);
    assert!(out.regions.iter().all(|r| r.is_conformal()));
    assert_eq!(out.granularity, 4);
}

#[test]
fn test_maintain_granularity_filters_chords() {
    let mut submap: Submap<Point, f64> = Submap::new(1);
    let mut r0 = SubmapRegion::new(0);
    r0.chords = vec![0];
    r0.weight = 2;
    let mut r1 = SubmapRegion::new(1);
    r1.chords = vec![0, 1, 2];
    r1.weight = 3;
    let mut r2 = SubmapRegion::new(2);
    r2.chords = vec![1, 2, 3];
    r2.weight = 9;
    let mut r3 = SubmapRegion::new(3);
    r3.chords = vec![3, 4, 5];
    r3.weight = 1;
    submap.regions = vec![r0, r1, r2, r3];
    // Light chord next to a region of degree 1: dropped. Heavy pair: kept.
    // Both regions of degree 3: kept. Region out of range: kept.
    submap.chords = vec![empty_chord(0, 0, 1), empty_chord(1, 1, 2), empty_chord(3, 2, 3), empty_chord(9, 0, 7)];
    let kept = maintain_granularity(submap.clone(), 5);
    let ids: Vec<usize> = kept.chords.iter().map(|c| c.id).collect();
    assert_eq!(ids, vec![1, 3, 9]);
    assert_eq!(kept.granularity, 5);
    // The dropped chord merges regions 0 and 1; the rest are renumbered.
    assert_eq!(kept.num_regions(), 3);
    assert_eq!(kept.regions[0].id, 0);
    assert_eq!(kept.regions[0].chords, vec![1, 2]);
    assert_eq!(kept.regions[0].weight, 5);
    assert_eq!(kept.regions[1].chords, vec![1, 2, 3]);
    assert_eq!(kept.regions[1].weight, 9);
    assert_eq!(kept.regions[2].id, 2);
    assert_eq!(kept.regions[2].weight, 1);
    let links: Vec<(usize, usize)> = kept.chords.iter().map(|c| (c.region1, c.region2)).collect();
    assert_eq!(links, vec![(0, 1), (1, 2), (0, 7)]);
    // A target of one leaves everything as it was.
    let same = maintain_granularity(submap, 1);
    assert_eq!(same.num_chords(), 4);
    assert_eq!(same.granularity, 1);
}

#[test]
fn test_centroid_tree_shapes() {
    let empty: Submap<Point, f64> = Submap::new(1);
    assert!(empty.build_centroid_tree().is_none());
    let mut one: Submap<Point, f64> = Submap::new(1);
    one.regions = vec![SubmapRegion::new(0)];
    assert!(matches!(one.build_centroid_tree(), Some(CentroidTreeNode::Leaf { region_id: 0 })));
    let mut two: Submap<Point, f64> = Submap::new(1);
    two.regions = vec![SubmapRegion::new(0), SubmapRegion::new(1)];
    two.chords = vec![empty_chord(4, 0, 1)];
    match two.build_centroid_tree() {
        Some(CentroidTreeNode::Internal { chord_id, .. }) => assert_eq!(chord_id, 4),
        other => panic!("expected an internal node, got {:?}", other),
    }
}

#[test]
fn test_up_phase_top_grade_covers_boundary() {
    let pts = generate_star(40, 1.0, 2.0);
    let g = FloatPolygon::new(pts);
    let h: UpPhaseHierarchy<Point, f64> = UpPhaseHierarchy::build(&g, 40);
    let top = h.grades.last().expect("some grade");
    assert_eq!(top.len(), 1);
    assert_eq!(top[0].start_vertex, 0);
    assert_eq!(top[0].num_edges, 40);
    assert_eq!(h.grades[0].len(), 3);
    assert!(h.grades[0].iter().all(|c| c.num_edges <= 16 && c.grade == 0));
    assert!(h.top_submap().is_some());
    let small = FloatPolygon::new(vec![Point::new(0.0, 0.0), Point::new(1.0, 0.0)]);
    let none: UpPhaseHierarchy<Point, f64> = UpPhaseHierarchy::build(&small, 2);
    assert!(none.grades.is_empty());
    assert!(none.top_submap().is_none());
}

#[test]
fn test_degenerate_polygon_errors() {
    let flat = vec![(0.0, 0.0), (1.0, 0.0), (2.0, 0.0), (3.0, 0.0)];
    for algorithm in [Algorithm::Chazelle, Algorithm::MonotoneSweep, Algorithm::Seidel] {
        assert_eq!(triangulate_with_algorithm(&flat, algorithm), Err(TriangulationError::DegeneratePolygon));
    }
    for algorithm in [Algorithm::Chazelle, Algorithm::MonotoneSweep, Algorithm::Seidel] {
        assert_eq!(
            triangulate_with_algorithm(&[(0.0, 0.0), (1.0, 0.0)], algorithm),
            Err(TriangulationError::PolygonTooSmall)
        );
        assert_eq!(triangulate_with_algorithm(&[], algorithm), Err(TriangulationError::PolygonTooSmall));
    }
}

#[test]
fn test_triangle_answer_is_fixed() {
    let cw_triangle = vec![(0.0, 0.0), (1.0, 2.0), (2.0, 0.0)];
    for algorithm in [Algorithm::Chazelle, Algorithm::MonotoneSweep, Algorithm::Seidel] {
        assert_eq!(triangulate_with_algorithm(&cw_triangle, algorithm), Ok(vec![[0, 1, 2]]));
    }
}

#[test]
fn test_clockwise_polygons_all_algorithms() {
    let mut l_shape = vec![(0.0, 0.0), (2.0, 0.0), (2.0, 1.0), (1.0, 1.0), (1.0, 2.0), (0.0, 2.0)];
    l_shape.reverse();
    for algorithm in [Algorithm::Chazelle, Algorithm::MonotoneSweep, Algorithm::Seidel] {
        let tris = triangulate_with_algorithm(&l_shape, algorithm).expect("clockwise L");
        verify_triangulation(&l_shape, &tris);
    }
}

#[test]
fn test_visibility_map_path_counts() {
    let g = square_geometry();
    let empty_map: Submap<Point, f64> = Submap::new(1);
    let tris = triangulate_from_visibility_map(&g, 4, &empty_map).expect("square");
    assert_valid_triangles(&tris, 4);
    assert_eq!(
        triangulate_from_visibility_map(&g, 2, &empty_map),
        Err(TriangulationError::PolygonTooSmall)
    );
}

#[test]
fn test_bucket_edges_by_slab() {
    let ranges = [(0usize, 1usize), (1, 1), (2, 0), (0, 2)];
    let (offsets, edges) = bucket_edges(&ranges, 3);
    assert_eq!(offsets, vec![0, 2, 5, 6]);
    assert_eq!(edges, vec![0, 3, 0, 1, 3, 3]);
    let (offsets, edges) = bucket_edges(&[], 2);
    assert_eq!(offsets, vec![0, 0, 0]);
    assert!(edges.is_empty());
    let (offsets, edges) = bucket_edges(&[(0, 0), (0, 0)], 1);
    assert_eq!(offsets, vec![0, 2]);
    assert_eq!(edges, vec![0, 1]);
}

#[test]
fn test_fusion_without_overlap_keeps_only_existing_chords() {
    let g = square_geometry();
    let mut s1: Submap<Point, f64> = Submap::new(2);
    s1.chords = vec![empty_chord(7, 0, 1)];
    let mut s2: Submap<Point, f64> = Submap::new(3);
    s2.chords = vec![empty_chord(3, 0, 1)];
    let fused = fuse_submaps_in_band(&s1, &s2, &g, 4, 0, 2, 2, 2, None);
    assert_eq!(fused.granularity, 3);
    // Sorted by height: the chord at y = 3 comes before the one at y = 7.
    let ys: Vec<f64> = fused.chords.iter().map(|c| c.y).collect();
    assert_eq!(ys, vec![3.0, 7.0]);
    let ids: Vec<usize> = fused.chords.iter().map(|c| c.id).collect();
    assert_eq!(ids, vec![0, 1]);
    assert_eq!(fused.num_regions(), 3);
    assert_eq!(fused.regions[1].chords, vec![0, 1]);
    assert_eq!(fused.regions[0].arcs.len(), 1);
    assert_eq!(fused.regions[0].arcs[0].start_edge, 0);
    assert_eq!(fused.regions[0].arcs[0].num_edges, 1);
    assert_eq!(fused.regions[2].arcs[0].start_edge, 2);
}

#[test]
fn test_triangles_from_words() {
    assert_eq!(
        ChazelleTriangle::triangles_from_words(&[1, 2, 3, 4, 5, 6]),
        Some(vec![ChazelleTriangle::new(1, 2, 3), ChazelleTriangle::new(4, 5, 6)])
    );
    assert_eq!(ChazelleTriangle::triangles_from_words(&[]), Some(vec![]));
    assert_eq!(ChazelleTriangle::triangles_from_words(&[1, 2]), None);
}

#[test]
fn test_restore_conformality_splits_new_regions_too() {
    let mut submap: Submap<Point, f64> = Submap::new(1);
    let mut big = SubmapRegion::new(0);
    big.chords = (0..10).collect();
    big.weight = 16;
    submap.regions = vec![big];
    let out = restore_conformality(submap, &square_geometry());
    let lists: Vec<Vec<usize>> = out.regions.iter().map(|r| r.chords.clone()).collect();
    assert_eq!(lists, vec![vec![0, 1], vec![5, 6], vec![2, 3, 4], vec![7, 8, 9]]);
    let weights: Vec<usize> = out.regions.iter().map(|r| r.weight).collect();
    assert_eq!(weights, vec![4, 4, 4, 4]);
    assert!(out.regions.iter().all(|r| r.is_conformal()));
}

#[test]
fn test_visibility_map_with_winding_and_diagonals() {
    let g = square_geometry();
    let empty_map: Submap<Point, f64> = Submap::new(1);
    assert_eq!(
        triangulate_from_visibility_map_with_winding(&g, 4, &empty_map, Winding::Clockwise),
        Err(TriangulationError::DegeneratePolygon)
    );
    let tris = triangulate_from_visibility_map_with_winding(&g, 4, &empty_map, Winding::CounterClockwise)
        .expect("counter-clockwise square");
    assert_valid_triangles(&tris, 4);
    assert!(visibility_map_diagonals(&g, 4, &empty_map).is_empty());
}

#[test]
fn test_seidel_diagonals_are_distinct() {
    let l_shape = vec![(0.0, 0.0), (2.0, 0.0), (2.0, 1.0), (1.0, 1.0), (1.0, 2.0), (0.0, 2.0)];
    let pts: Vec<Point> = l_shape.iter().map(|&(x, y)| Point::new(x, y)).collect();
    let g = FloatPolygon::new(pts);
    let order: Vec<usize> = (0..6).collect();
    let diags = seidel_diagonals(&g, 6, &order);
    for (i, d) in diags.iter().enumerate() {
        assert!(d.u <= d.v && d.v < 6);
        assert!(diags[i + 1..].iter().all(|e| e != d));
    }
}

fn leaves_of(t: &CentroidTreeNode, out: &mut Vec<usize>) {
    match t {
        CentroidTreeNode::Leaf { region_id } => out.push(*region_id),
        CentroidTreeNode::Internal { left_child, right_child, .. } => {
            leaves_of(left_child, out);
            leaves_of(right_child, out);
        }
    }
}

#[test]
fn test_centroid_tree_path_has_every_region_once() {
    let mut path: Submap<Point, f64> = Submap::new(1);
    path.regions = (0..6).map(SubmapRegion::new).collect();
    path.chords = (0..5).map(|i| empty_chord(i, i, i + 1)).collect();
    let tree = path.build_centroid_tree().expect("a tree");
    let mut leaves = Vec::new();
    leaves_of(&tree, &mut leaves);
    leaves.sort();
    assert_eq!(leaves, vec![0, 1, 2, 3, 4, 5]);
    // The root chord splits the path of six regions in halves.
    match tree {
        CentroidTreeNode::Internal { chord_id, .. } => assert_eq!(chord_id, 2),
        other => panic!("expected an internal node, got {:?}", other),
    }
}

#[test]
fn test_centroid_tree_cycle_has_every_region_once() {
    let mut cycle: Submap<Point, f64> = Submap::new(1);
    cycle.regions = (0..3).map(SubmapRegion::new).collect();
    cycle.chords = vec![empty_chord(0, 0, 1), empty_chord(1, 1, 2), empty_chord(2, 2, 0)];
    let tree = cycle.build_centroid_tree().expect("a tree");
    assert!(matches!(tree, CentroidTreeNode::Internal { .. }));
    let mut leaves = Vec::new();
    leaves_of(&tree, &mut leaves);
    leaves.sort();
    assert_eq!(leaves, vec![0, 1, 2]);
}

#[test]
fn test_chord_from_hit_orders_end_points() {
    let p = Point::new(1.0, 2.0);
    let hit = Point::new(5.0, 2.0);
    let right: Chord<Point, f64> = chazelle::submap::chord_from_hit(3, ChordDirection::Right, p, 2.0, hit, 7);
    assert_eq!(right.left_pt, p);
    assert_eq!(right.right_pt, hit);
    assert_eq!(right.origin_vertex, Some(3));
    assert_eq!(right.hit_edge, 7);
    assert_eq!(right.hit_pt, hit);
    assert_eq!(right.y, 2.0);
    let left_hit = Point::new(-4.0, 2.0);
    let left: Chord<Point, f64> = chazelle::submap::chord_from_hit(3, ChordDirection::Left, p, 2.0, left_hit, 1);
    assert_eq!(left.left_pt, left_hit);
    assert_eq!(left.right_pt, p);
    assert_eq!((left.id, left.region1, left.region2), (0, 0, 0));
}

#[test]
fn test_up_phase_granularity_by_grade() {
    let pts = generate_star(200, 1.0, 2.0);
    let g = FloatPolygon::new(pts);
    let h: UpPhaseHierarchy<Point, f64> = UpPhaseHierarchy::build(&g, 200);
    assert!(h.grades.len() >= 5);
    for (grade, nodes) in h.grades.iter().enumerate() {
        let gamma = 1usize << (grade / 4);
        for node in nodes {
            assert!(node.submap.granularity <= gamma);
        }
    }
    assert!(h.grades[0].iter().all(|c| c.submap.granularity == 1));
}

#[test]
fn test_centroid_tree_star_splits_one_against_three() {
    let mut star: Submap<Point, f64> = Submap::new(1);
    star.regions = (0..4).map(SubmapRegion::new).collect();
    star.chords = vec![empty_chord(0, 0, 1), empty_chord(1, 0, 2), empty_chord(2, 0, 3)];
    let tree = star.build_centroid_tree().expect("a tree");
    let mut leaves = Vec::new();
    leaves_of(&tree, &mut leaves);
    leaves.sort();
    assert_eq!(leaves, vec![0, 1, 2, 3]);
    // Every chord of a star cuts off one region: the first one listed is kept.
    match tree {
        CentroidTreeNode::Internal { chord_id, left_child, right_child } => {
            assert_eq!(chord_id, 0);
            let (mut l, mut r) = (Vec::new(), Vec::new());
            leaves_of(&left_child, &mut l);
            leaves_of(&right_child, &mut r);
            assert_eq!(l.len() + r.len(), 4);
            assert_eq!(l.len().min(r.len()), 1);
        }
        other => panic!("expected an internal node, got {:?}", other),
    }
}

#[test]
fn test_sorted_positions_by_sweep_and_height() {
    let g = FloatPolygon::new(vec![
        Point::new(0.0, 0.0),
        Point::new(2.0, 1.0),
        Point::new(1.0, 3.0),
        Point::new(-1.0, 1.0),
    ]);
    let vertices = [0usize, 1, 2, 3];
    // Highest first; at equal height the smaller x first.
    assert_eq!(sorted_positions(&g, &SortKey::Vertices(&vertices)), vec![2, 3, 1, 0]);
    let sub = [1usize, 0, 3];
    assert_eq!(sorted_positions(&g, &SortKey::Vertices(&sub)), vec![2, 0, 1]);
    // Chords by increasing height, equal heights in their given order.
    let chords = vec![empty_chord(0, 0, 0), empty_chord(0, 0, 0), empty_chord(0, 0, 0)];
    let mut chords = chords;
    chords[0].y = 2.0;
    chords[1].y = 1.0;
    chords[2].y = 2.0;
    assert_eq!(sorted_positions(&g, &SortKey::<Point, f64>::Chords(&chords)), vec![1, 0, 2]);
    let none: [usize; 0] = [];
    assert!(sorted_positions(&g, &SortKey::<Point, f64>::Vertices(&none)).is_empty());
}

#[test]
fn test_restore_conformality_keeps_conformal_submap() {
    let g = FloatPolygon::new(vec![Point::new(0.0, 0.0), Point::new(1.0, 0.0), Point::new(1.0, 1.0), Point::new(0.0, 1.0)]);
    let mut s: Submap<Point, f64> = Submap::new(1);
    let mut r0 = SubmapRegion::new(0);
    r0.chords = vec![0];
    r0.weight = 2;
    let mut r1 = SubmapRegion::new(1);
    r1.chords = vec![0];
    r1.weight = 2;
    s.regions = vec![r0, r1];
    s.chords = vec![empty_chord(0, 0, 1)];
    let out = restore_conformality(s, &g);
    assert_eq!(out.regions.len(), 2);
    assert_eq!(out.regions[0].chords, vec![0]);
    assert_eq!(out.regions[1].chords, vec![0]);
    assert_eq!((out.regions[0].weight, out.regions[1].weight), (2, 2));
}
