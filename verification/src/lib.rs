//! Triangulation of simple polygons: the combinatorial core of Chazelle's
//! linear-time algorithm, the classic plane-sweep monotone decomposition and
//! Seidel's randomized incremental method.
//!
//! Coordinates never enter this crate: every geometric question (orientation of
//! three vertices, sweep order, ray hits, diagonal validity) is asked of a
//! [`geometry::PolygonGeometry`] implementation supplied by the caller, and the
//! algorithms here are verified for every answer such an implementation gives.
use vstd::prelude::*;

pub mod c_api;
pub mod conformality;
pub mod double_boundary;
pub mod down_phase;
pub mod fusion;
pub mod geometry;
pub mod monotone;
pub mod monotone_sweep;
pub mod oracles;
pub mod seidel;
pub mod sorting;
pub mod submap;
pub mod up_phase;

pub use crate::c_api::{ChazelleAlgorithm, ChazelleStatus, ChazelleTriangle};
pub use crate::geometry::PolygonGeometry;
pub use crate::monotone::TriangulationError;
pub use crate::monotone_sweep::triangulate_monotone_sweep;
pub use crate::seidel::triangulate_seidel;
use crate::geometry::Winding;
use crate::monotone::{triangle_within, triangles_within};

verus! {

/// Available polygon triangulation algorithms in the library.
#[derive(Debug, Clone, Copy, PartialEq, Eq, Structural)]
pub enum Algorithm {
    /// Bernard Chazelle's deterministic linear-time algorithm (the default).
    Chazelle,
    /// Classic textbook plane-sweep monotone decomposition in O(n log n).
    MonotoneSweep,
    /// Raimund Seidel's randomized incremental algorithm in O(n log* n).
    Seidel,
}

impl Default for Algorithm {
    fn default() -> (a: Self)
        ensures
            a == Algorithm::Chazelle,
    {
        Algorithm::Chazelle
    }
}

/// The three corners of `t` are below `m`.
pub open spec fn corners_below(t: [usize; 3], m: int) -> bool {
    t[0] < m && t[1] < m && t[2] < m
}

/// The index map of the reversed `n`-gon: position `i` holds `n - 1 - i`.
pub fn reversal_map(n: usize) -> (map: Vec<usize>)
    ensures
        map@.len() == n,
        forall|i: int| 0 <= i < n ==> #[trigger] map@[i] == n - 1 - i,
{
    let mut map: Vec<usize> = Vec::with_capacity(n);
    let mut i: usize = n;
    while i > 0
        invariant
            i <= n,
            map@.len() == n - i,
            forall|k: int| 0 <= k < n - i ==> #[trigger] map@[k] == n - 1 - k,
        decreases i,
    {
        i -= 1;
        map.push(i);
    }
    map
}

/// Renames the corners of every triangle through `index_map`.
pub fn remap_triangles(triangles: Vec<[usize; 3]>, index_map: &[usize]) -> (r: Vec<[usize; 3]>)
    requires
        forall|k: int| 0 <= k < triangles@.len() ==> corners_below(#[trigger] triangles@[k], index_map@.len() as int),
    ensures
        r@.len() == triangles@.len(),
        forall|k: int|
            0 <= k < r@.len() ==> #[trigger] r@[k] == [
                index_map@[triangles@[k][0] as int],
                index_map@[triangles@[k][1] as int],
                index_map@[triangles@[k][2] as int],
            ],
{
    let mut r: Vec<[usize; 3]> = Vec::with_capacity(triangles.len());
    let mut k: usize = 0;
    while k < triangles.len()
        invariant
            k <= triangles@.len(),
            r@.len() == k,
            forall|k2: int|
                0 <= k2 < triangles@.len() ==> corners_below(#[trigger] triangles@[k2], index_map@.len() as int),
            forall|k2: int|
                0 <= k2 < k ==> #[trigger] r@[k2] == [
                    index_map@[triangles@[k2][0] as int],
                    index_map@[triangles@[k2][1] as int],
                    index_map@[triangles@[k2][2] as int],
                ],
        decreases triangles@.len() - k,
    {
        let t = triangles[k];
        proof {
            assert(triangles@[k as int] == t);
            assert(corners_below(triangles@[k as int], index_map@.len() as int));
        }
        r.push([index_map[t[0]], index_map[t[1]], index_map[t[2]]]);
        k += 1;
    }
    r
}

/// Maps the triangles of the reversed polygon back to the original vertices.
fn unreverse_triangles(triangles: Vec<[usize; 3]>, n: usize) -> (r: Vec<[usize; 3]>)
    requires
        triangles_within(triangles@, n as int),
    ensures
        r@.len() == triangles@.len(),
        forall|k: int|
            0 <= k < r@.len() ==> #[trigger] r@[k] == [
                (n - 1 - triangles@[k][0]) as usize,
                (n - 1 - triangles@[k][1]) as usize,
                (n - 1 - triangles@[k][2]) as usize,
            ],
        triangles_within(r@, n as int),
{
    let map = reversal_map(n);
    proof {
        assert forall|k: int| 0 <= k < triangles@.len() implies corners_below(#[trigger] triangles@[k], map@.len() as int) by {
            assert(triangle_within(triangles@[k], n as int));
        }
    }
    let r = remap_triangles(triangles, map.as_slice());
    proof {
        assert forall|k: int| 0 <= k < r@.len() implies #[trigger] triangle_within(r@[k], n as int) by {
            let t = triangles@[k];
            assert(triangle_within(t, n as int));
            assert(r@[k][0] == n - 1 - t[0]);
            assert(r@[k][1] == n - 1 - t[1]);
            assert(r@[k][2] == n - 1 - t[2]);
        }
    }
    r
}

/// Runs the chosen algorithm on a polygon already known to be counter-clockwise.
fn triangulate_ccw<G: PolygonGeometry>(polygon: &G, n: usize, algorithm: Algorithm) -> (r: Result<
    Vec<[usize; 3]>,
    TriangulationError,
>)
    requires
        n >= 4,
        algorithm == Algorithm::Chazelle ==> n < usize::MAX,
    ensures
        r matches Ok(t) ==> t@.len() == n - 2 && triangles_within(t@, n as int),
        r matches Err(e) ==> e is InternalError && algorithm == Algorithm::MonotoneSweep,
        algorithm != Algorithm::MonotoneSweep ==> r is Ok,
{
    match algorithm {
        Algorithm::Chazelle => chazelle_ccw(polygon, n),
        Algorithm::MonotoneSweep => crate::monotone_sweep::monotone_sweep_ccw(polygon, n),
        Algorithm::Seidel => crate::seidel::seidel_ccw(polygon, n),
    }
}

/// Chazelle's triangulation of a counter-clockwise `n`-gon: the up-phase
/// hierarchy of canonical submaps, its refinement into the visibility map,
/// and the triangulation along the diagonals the visibility map yields.
pub fn chazelle_ccw<G: PolygonGeometry>(polygon: &G, n: usize) -> (r: Result<
    Vec<[usize; 3]>,
    TriangulationError,
>)
    requires
        4 <= n < usize::MAX,
    ensures
        r is Ok,
        r matches Ok(t) ==> t@.len() == n - 2 && triangles_within(t@, n as int),
{
    let hierarchy = crate::up_phase::UpPhaseHierarchy::build_with_oracle(polygon, n);
    let visibility_map = crate::down_phase::run_down_phase(&hierarchy, polygon, n);
    // The polygon is counter-clockwise here: its winding is not asked again.
    crate::monotone::triangulate_from_visibility_map_with_winding(
        polygon,
        n,
        &visibility_map,
        Winding::CounterClockwise,
    )
}

/// Triangulates a polygon of `n >= 4` vertices whose winding is `winding`:
/// a degenerate polygon is refused, a clockwise one is triangulated reversed
/// and its triangles are mapped back to the original vertex indices.
pub fn triangulate_with_winding<G: PolygonGeometry>(
    polygon: &G,
    n: usize,
    winding: Winding,
    algorithm: Algorithm,
) -> (r: Result<Vec<[usize; 3]>, TriangulationError>)
    requires
        n >= 4,
        algorithm == Algorithm::Chazelle ==> n < usize::MAX,
    ensures
        r matches Err(TriangulationError::DegeneratePolygon) <==> winding == Winding::Degenerate,
        r matches Err(e) ==> (e is DegeneratePolygon || (e is InternalError && algorithm
            == Algorithm::MonotoneSweep)),
        algorithm != Algorithm::MonotoneSweep && winding != Winding::Degenerate ==> r is Ok,
        r matches Ok(t) ==> t@.len() == n - 2 && triangles_within(t@, n as int),
{
    match winding {
        Winding::Degenerate => Err(TriangulationError::DegeneratePolygon),
        Winding::CounterClockwise => triangulate_ccw(polygon, n, algorithm),
        Winding::Clockwise => {
            let ccw_polygon = polygon.reversed();
            let tris = triangulate_ccw(&ccw_polygon, n, algorithm)?;
            Ok(unreverse_triangles(tris, n))
        },
    }
}

/// Triangulates an `n`-gon with the chosen algorithm: fewer than three
/// vertices is an error, a triangle is returned as is, and otherwise the
/// winding of the polygon decides as in [`triangulate_with_winding`].
pub fn triangulate_oriented<G: PolygonGeometry>(polygon: &G, n: usize, algorithm: Algorithm) -> (r:
    Result<Vec<[usize; 3]>, TriangulationError>)
    requires
        algorithm == Algorithm::Chazelle ==> n < usize::MAX,
    ensures
        n < 3 <==> r == Err::<Vec<[usize; 3]>, TriangulationError>(
            TriangulationError::PolygonTooSmall,
        ),
        n == 3 ==> (r matches Ok(t) && t@ == seq![[0usize, 1usize, 2usize]]),
        r matches Ok(t) ==> t@.len() == n - 2 && triangles_within(t@, n as int),
        r matches Err(e) ==> (e is PolygonTooSmall || e is DegeneratePolygon || (e is InternalError
            && algorithm == Algorithm::MonotoneSweep)),
        algorithm != Algorithm::MonotoneSweep && n >= 3 ==> (r is Ok || r matches Err(
            TriangulationError::DegeneratePolygon,
        )),
{
    if n < 3 {
        return Err(TriangulationError::PolygonTooSmall);
    }
    if n == 3 {
        let t = vec![[0usize, 1usize, 2usize]];
        proof {
            assert(triangle_within(t@[0], 3));
        }
        return Ok(t);
    }
    let winding = polygon.winding();
    triangulate_with_winding(polygon, n, winding, algorithm)
}

/// Triangulates a simple `n`-gon using the selected algorithm.
pub fn triangulate_points_with_algorithm<G: PolygonGeometry>(
    polygon: &G,
    n: usize,
    algorithm: Algorithm,
) -> (r: Result<Vec<[usize; 3]>, TriangulationError>)
    requires
        algorithm == Algorithm::Chazelle ==> n < usize::MAX,
    ensures
        n < 3 <==> r == Err::<Vec<[usize; 3]>, TriangulationError>(
            TriangulationError::PolygonTooSmall,
        ),
        n == 3 ==> (r matches Ok(t) && t@ == seq![[0usize, 1usize, 2usize]]),
        r matches Ok(t) ==> t@.len() == n - 2 && triangles_within(t@, n as int),
        r matches Err(e) ==> (e is PolygonTooSmall || e is DegeneratePolygon || (e is InternalError
            && algorithm == Algorithm::MonotoneSweep)),
        algorithm != Algorithm::MonotoneSweep && n >= 3 ==> (r is Ok || r matches Err(
            TriangulationError::DegeneratePolygon,
        )),
{
    triangulate_oriented(polygon, n, algorithm)
}

/// Triangulates a simple `n`-gon using Chazelle's algorithm.
pub fn triangulate_points<G: PolygonGeometry>(polygon: &G, n: usize) -> (r: Result<
    Vec<[usize; 3]>,
    TriangulationError,
>)
    requires
        n < usize::MAX,
    ensures
        n < 3 <==> r == Err::<Vec<[usize; 3]>, TriangulationError>(
            TriangulationError::PolygonTooSmall,
        ),
        n == 3 ==> (r matches Ok(t) && t@ == seq![[0usize, 1usize, 2usize]]),
        r matches Ok(t) ==> t@.len() == n - 2 && triangles_within(t@, n as int),
        n >= 3 ==> (r is Ok || r matches Err(TriangulationError::DegeneratePolygon)),
{
    triangulate_points_with_algorithm(polygon, n, Algorithm::Chazelle)
}

} // verus!
