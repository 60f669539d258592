//! Seidel's randomized incremental triangulation (Seidel 1991): segments are
//! visited in a pseudo-random order, the horizontal visibility chords of their
//! endpoints give non-crossing diagonals, and the pieces between them are
//! triangulated as monotone mountains.
use vstd::prelude::*;
use crate::double_boundary::ChordDirection;
use crate::geometry::PolygonGeometry;
use crate::monotone::{
    Diagonal, TriangulationError, clip_ears, identity_cycle, identity_order, piece_views,
    split_along_diagonals, total_excess, triangles_from, valid_pieces, triangles_within,
};
use crate::monotone_sweep::contains_diagonal;
use crate::monotone::crosses_any;

verus! {

/// The swap of two elements of a slice.
pub assume_specification<Elem>[ <[Elem]>::swap ](slice: &mut [Elem], a: usize, b: usize)
    requires
        a < old(slice)@.len(),
        b < old(slice)@.len(),
    ensures
        final(slice)@ == old(slice)@.update(a as int, old(slice)@[b as int]).update(
            b as int,
            old(slice)@[a as int],
        ),
;

/// One step of the xorshift64 generator.
pub open spec fn xorshift_spec(x: u64) -> u64 {
    let a = x ^ (x << 13u64);
    let b = a ^ (a >> 7u64);
    b ^ (b << 17u64)
}

/// Simple, deterministic pseudo-random number generator (xorshift64) for
/// reproducible randomization.
pub struct SimpleRng {
    pub state: u64,
}

impl SimpleRng {
    pub fn new(seed: u64) -> (r: Self)
        ensures
            r.state == (if seed == 0 {
                0xdeadbeef_cafebabeu64
            } else {
                seed
            }),
    {
        Self {
            state: if seed == 0 {
                0xdeadbeef_cafebabe
            } else {
                seed
            },
        }
    }

    pub fn next_u64(&mut self) -> (x: u64)
        ensures
            x == xorshift_spec(old(self).state),
            final(self).state == x,
    {
        let mut x = self.state;
        x ^= x << 13;
        x ^= x >> 7;
        x ^= x << 17;
        self.state = x;
        x
    }

    /// Fisher-Yates shuffle driven by the generator: for each position `i`
    /// from the last down to 1, the element there is swapped with the one at
    /// the next draw modulo `i + 1`. The result is a permutation of the input.
    pub fn shuffle<T>(&mut self, slice: &mut [T])
        ensures
            (final(slice)@, final(self).state) == shuffle_spec(
                old(slice)@,
                old(self).state,
                old(slice)@.len() - 1,
            ),
            final(slice)@.len() == old(slice)@.len(),
            final(slice)@.to_multiset() == old(slice)@.to_multiset(),
    {
        let len = slice.len();
        if len < 2 {
            return;
        }
        let mut i = len - 1;
        while i > 0
            invariant
                2 <= len == slice@.len(),
                i < len,
                shuffle_spec(slice@, self.state, i as int) == shuffle_spec(
                    old(slice)@,
                    old(self).state,
                    len - 1,
                ),
                slice@.to_multiset() == old(slice)@.to_multiset(),
            decreases i,
        {
            let ghost s0 = slice@;
            let ghost st0 = self.state;
            let r = self.next_u64();
            let j = (r as usize) % (i + 1);
            slice.swap(i, j);
            proof {
                lemma_swap_multiset(s0, i as int, j as int);
                assert(slice@ == swap_spec(s0, i as int, j as int));
            }
            i -= 1;
        }
    }
}

/// The sequence with the elements at `a` and `b` exchanged.
pub open spec fn swap_spec<T>(s: Seq<T>, a: int, b: int) -> Seq<T> {
    s.update(a, s[b]).update(b, s[a])
}

/// Fisher-Yates from position `i` down to position 1, each draw taken from
/// the xorshift generator in state `state`: the shuffled sequence and the
/// final state.
pub open spec fn shuffle_spec<T>(s: Seq<T>, state: u64, i: int) -> (Seq<T>, u64)
    decreases i,
{
    if i < 1 {
        (s, state)
    } else {
        let x = xorshift_spec(state);
        let j = ((x as usize) % ((i + 1) as usize)) as int;
        shuffle_spec(swap_spec(s, i, j), x, i - 1)
    }
}

proof fn lemma_swap_multiset<A>(s: Seq<A>, a: int, b: int)
    requires
        0 <= a < s.len(),
        0 <= b < s.len(),
    ensures
        s.update(a, s[b]).update(b, s[a]).to_multiset() == s.to_multiset(),
{
    broadcast use vstd::seq_lib::to_multiset_update;
    broadcast use vstd::seq_lib::to_multiset_contains;
    broadcast use vstd::multiset::group_multiset_axioms;

    let ms = s.to_multiset();
    let s1 = s.update(a, s[b]);
    assert(s1.len() == s.len());
    assert(s1[b] == s[b]);
    assert(s.contains(s[a]));
    assert(ms.count(s[a]) > 0);
    let m1 = ms.insert(s[b]).remove(s[a]);
    assert(s1.to_multiset() == m1);
    let m2 = m1.insert(s[a]).remove(s[b]);
    assert(s1.update(b, s[a]).to_multiset() == m2);
    assert(m2 =~= ms);
}

/// The vertices that follow one another round the cycle.
proof fn lemma_permuted_bound(p: Seq<usize>, n: int, k: int)
    requires
        p.to_multiset() == identity_cycle(n).to_multiset(),
        0 <= k < p.len(),
        0 <= n <= usize::MAX,
    ensures
        p[k] < n,
{
    broadcast use vstd::seq_lib::to_multiset_contains;

    let id = identity_cycle(n);
    assert forall|i: int| 0 <= i < id.len() implies #[trigger] id[i] < n by {
        assert(id[i] == i);
    }
    assert(p.contains(p[k]));
    assert(p.to_multiset().count(p[k]) > 0);
    assert(id.contains(p[k]));
}

/// Triangulates a simple polygon with Seidel's randomized algorithm.
pub fn triangulate_seidel<G: PolygonGeometry>(polygon: &G, n: usize) -> (r: Result<
    Vec<[usize; 3]>,
    TriangulationError,
>)
    ensures
        n < 3 <==> r == Err::<Vec<[usize; 3]>, TriangulationError>(
            TriangulationError::PolygonTooSmall,
        ),
        n == 3 ==> (r matches Ok(t) && t@ == seq![[0usize, 1usize, 2usize]]),
        r matches Ok(t) ==> t@.len() == n - 2 && triangles_within(t@, n as int),
        n >= 3 ==> (r is Ok || r matches Err(TriangulationError::DegeneratePolygon)),
{
    crate::triangulate_oriented(polygon, n, crate::Algorithm::Seidel)
}

/// Seidel's triangulation of a counter-clockwise `n`-gon: the edges are
/// visited in shuffled order; from each endpoint, every horizontal direction
/// that points into the polygon is shot, and a valid diagonal to an end of the
/// hit edge is kept when it crosses none kept before.
pub fn seidel_ccw<G: PolygonGeometry>(polygon: &G, n: usize) -> (r: Result<
    Vec<[usize; 3]>,
    TriangulationError,
>)
    requires
        n >= 3,
    ensures
        r matches Ok(t) && t@.len() == n - 2 && triangles_within(t@, n as int),
{
    // 1. Randomized order of insertion of the segments.
    let mut rng = SimpleRng::new(0x12345678_9abcdef0);
    let mut permuted_edges = identity_order(n);
    rng.shuffle(permuted_edges.as_mut_slice());
    let valid_diagonals = seidel_diagonals(polygon, n, &permuted_edges);
    // 2. Monotone mountain triangulation of the pieces between the chords.
    triangulate_seidel_monotone(polygon, n, valid_diagonals.as_slice())
}

/// The diagonals of Seidel's method, the edges taken in the order
/// `permuted_edges`: from each endpoint, every horizontal direction that points
/// into the polygon is shot, and a valid diagonal to an end of the hit edge is
/// kept when it is new and crosses none kept before. Each has its endpoints in
/// order, and none is listed twice.
pub fn seidel_diagonals<G: PolygonGeometry>(polygon: &G, n: usize, permuted_edges: &Vec<usize>) -> (d: Vec<
    Diagonal,
>)
    requires
        n >= 3,
        permuted_edges@.len() == n,
        permuted_edges@.to_multiset() == identity_cycle(n as int).to_multiset(),
    ensures
        d@.no_duplicates(),
        forall|j: int| 0 <= j < d@.len() ==> (#[trigger] d@[j]).u <= d@[j].v < n,
{
    let mut valid_diagonals: Vec<Diagonal> = Vec::new();
    let mut k: usize = 0;
    while k < n
        invariant
            k <= n,
            permuted_edges@.len() == n,
            permuted_edges@.to_multiset() == identity_cycle(n as int).to_multiset(),
            valid_diagonals@.no_duplicates(),
            forall|j: int| 0 <= j < valid_diagonals@.len() ==> (#[trigger] valid_diagonals@[j]).u <= valid_diagonals@[j].v < n,
        decreases n - k,
    {
        let edge_idx = permuted_edges[k];
        proof {
            lemma_permuted_bound(permuted_edges@, n as int, k as int);
        }
        let u = edge_idx;
        let v = if edge_idx + 1 == n { 0 } else { edge_idx + 1 };
        let origins = [u, v];
        let dirs = [ChordDirection::Left, ChordDirection::Right];
        let mut oi: usize = 0;
        while oi < 2
            invariant
                oi <= 2,
                origins[0] < n,
                origins[1] < n,
                valid_diagonals@.no_duplicates(),
                forall|j: int| 0 <= j < valid_diagonals@.len() ==> (#[trigger] valid_diagonals@[j]).u <= valid_diagonals@[j].v < n,
            decreases 2 - oi,
        {
            let origin = origins[oi];
            let mut di: usize = 0;
            while di < 2
                invariant
                    di <= 2,
                    origin < n,
                    valid_diagonals@.no_duplicates(),
                    forall|j: int| 0 <= j < valid_diagonals@.len() ==> (#[trigger] valid_diagonals@[j]).u <= valid_diagonals@[j].v < n,
                decreases 2 - di,
            {
                let dir = dirs[di];
                if polygon.direction_is_interior(origin, dir) {
                    if let Some((_, hit_e)) = polygon.vertex_hit(origin, dir) {
                        if hit_e < n {
                            let targets = [hit_e, if hit_e + 1 == n { 0 } else { hit_e + 1 }];
                            let mut ti: usize = 0;
                            while ti < 2
                                invariant
                                    ti <= 2,
                                    origin < n,
                                    targets[0] < n,
                                    targets[1] < n,
                                    valid_diagonals@.no_duplicates(),
                                    forall|j: int| 0 <= j < valid_diagonals@.len() ==> (#[trigger] valid_diagonals@[j]).u <= valid_diagonals@[j].v < n,
                                decreases 2 - ti,
                            {
                                let target = targets[ti];
                                let diag = Diagonal::new(origin, target);
                                if !contains_diagonal(&valid_diagonals, diag) && polygon.is_valid_diagonal(
                                    origin,
                                    target,
                                ) {
                                    if !crosses_any(polygon, diag, &valid_diagonals) {
                                        proof {
                                            crate::monotone::lemma_push_fresh(valid_diagonals@, diag);
                                        }
                                        valid_diagonals.push(diag);
                                    }
                                }
                                ti += 1;
                            }
                        }
                    }
                }
                di += 1;
            }
            oi += 1;
        }
        k += 1;
    }
    valid_diagonals
}

/// Decomposes the polygon into subpolygons along the chords and triangulates
/// each monotone mountain.
fn triangulate_seidel_monotone<G: PolygonGeometry>(
    polygon: &G,
    n: usize,
    diagonals: &[Diagonal],
) -> (r: Result<Vec<[usize; 3]>, TriangulationError>)
    requires
        n >= 3,
    ensures
        r matches Ok(t) && t@.len() == n - 2 && triangles_within(t@, n as int),
{
    let subpolys = split_along_diagonals(n, diagonals);
    let mut all_triangles: Vec<[usize; 3]> = Vec::new();
    let mut i: usize = 0;
    while i < subpolys.len()
        invariant
            i <= subpolys@.len(),
            valid_pieces(piece_views(subpolys@), n as int),
            all_triangles@.len() == total_excess(piece_views(subpolys@).take(i as int)),
            triangles_within(all_triangles@, n as int),
        decreases subpolys@.len() - i,
    {
        let sub = &subpolys[i];
        let ghost views = piece_views(subpolys@);
        proof {
            assert(views[i as int] == sub@);
            assert(crate::monotone::valid_piece(views[i as int], n as int));
            assert(views.take(i + 1).drop_last() =~= views.take(i as int));
        }
        let mut tris = triangulate_monotone_mountain(polygon, sub.as_slice())?;
        proof {
            crate::monotone::lemma_piece_triangles_valid(tris@, sub@, n as int);
            crate::monotone::lemma_valid_triangles_append(all_triangles@, tris@, n as int);
        }
        all_triangles.append(&mut tris);
        i += 1;
    }
    assert(piece_views(subpolys@).take(subpolys@.len() as int) =~= piece_views(subpolys@));
    if all_triangles.len() != n - 2 {
        return Err(TriangulationError::InternalError(crate::monotone::triangle_count_message("Seidel: expected", n - 2, all_triangles.len())));
    }
    Ok(all_triangles)
}

/// Triangulates a monotone mountain by ear clipping.
fn triangulate_monotone_mountain<G: PolygonGeometry>(polygon: &G, mountain: &[usize]) -> (r: Result<
    Vec<[usize; 3]>,
    TriangulationError,
>)
    ensures
        mountain@.len() < 3 ==> r matches Err(TriangulationError::PolygonTooSmall),
        mountain@.len() >= 3 ==> (r matches Ok(t) && t@.len() == mountain@.len() - 2
            && triangles_from(t@, mountain@)),
{
    let m = mountain.len();
    if m < 3 {
        return Err(TriangulationError::PolygonTooSmall);
    }
    if m == 3 {
        let t = vec![[mountain[0], mountain[1], mountain[2]]];
        proof {
            let tri = [mountain@[0], mountain@[1], mountain@[2]];
            assert(t@[0] == tri);
            assert(mountain@.contains(mountain@[0]));
            assert(mountain@.contains(mountain@[1]));
            assert(mountain@.contains(mountain@[2]));
        }
        return Ok(t);
    }
    Ok(clip_ears(polygon, mountain))
}

} // verus!
