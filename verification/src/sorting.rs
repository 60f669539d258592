//! Stable merge sort of positions by the order the polygon answers: vertices
//! by the downward sweep order, chords by increasing height.
use vstd::prelude::*;
use crate::geometry::PolygonGeometry;
use crate::monotone::is_arrangement;
use crate::submap::Chord;

verus! {

/// What the positions being sorted stand for.
pub enum SortKey<'a, P, S> {
    /// Position `k` stands for vertex `vertices[k]`, ordered by the sweep.
    Vertices(&'a [usize]),
    /// Position `k` stands for chord `chords[k]`, ordered by height.
    Chords(&'a [Chord<P, S>]),
}

impl<'a, P, S> SortKey<'a, P, S> {
    /// The number of positions.
    pub open spec fn len(&self) -> int {
        match self {
            SortKey::Vertices(v) => v@.len() as int,
            SortKey::Chords(c) => c@.len() as int,
        }
    }
}

/// The positions `lo..hi`, each once, in some order.
pub open spec fn arranges(r: Seq<usize>, lo: int, hi: int) -> bool {
    &&& r.len() == hi - lo
    &&& r.no_duplicates()
    &&& forall|k: int| 0 <= k < r.len() ==> lo <= #[trigger] r[k] < hi
}

/// Whether position `a` strictly precedes position `b`: vertex `a` is above
/// vertex `b` in the sweep order, or chord `a` lies strictly below chord `b`.
fn precedes<G: PolygonGeometry>(polygon: &G, key: &SortKey<G::Point, G::Scalar>, a: usize, b: usize) -> bool
    requires
        a < key.len(),
        b < key.len(),
{
    match key {
        SortKey::Vertices(v) => polygon.is_above(v[a], v[b]),
        SortKey::Chords(c) => polygon.is_lower(c[a].y, c[b].y),
    }
}

/// The positions `0..key.len()` sorted by [`precedes`], positions that
/// neither precedes keeping their order.
pub fn sorted_positions<G: PolygonGeometry>(polygon: &G, key: &SortKey<G::Point, G::Scalar>) -> (r: Vec<
    usize,
>)
    ensures
        is_arrangement(r@, key.len()),
{
    let m = match key {
        SortKey::Vertices(v) => v.len(),
        SortKey::Chords(c) => c.len(),
    };
    let r = sort_range(polygon, key, 0, m);
    proof {
        assert forall|k: int| 0 <= k < r@.len() implies #[trigger] r@[k] < m by {}
    }
    r
}

/// Merge sort of the positions `lo..hi`.
fn sort_range<G: PolygonGeometry>(polygon: &G, key: &SortKey<G::Point, G::Scalar>, lo: usize, hi: usize) -> (r: Vec<
    usize,
>)
    requires
        lo <= hi <= key.len(),
    ensures
        arranges(r@, lo as int, hi as int),
    decreases hi - lo,
{
    if hi - lo == 0 {
        return Vec::new();
    }
    if hi - lo == 1 {
        let r = vec![lo];
        proof {
            assert(r@[0] == lo);
        }
        return r;
    }
    let mid = lo + (hi - lo) / 2;
    let left = sort_range(polygon, key, lo, mid);
    let right = sort_range(polygon, key, mid, hi);
    merge(polygon, key, &left, &right, lo, mid, hi)
}

/// Merges two sorted runs, taking from `right` only what strictly precedes
/// the next of `left`.
fn merge<G: PolygonGeometry>(
    polygon: &G,
    key: &SortKey<G::Point, G::Scalar>,
    left: &Vec<usize>,
    right: &Vec<usize>,
    lo: usize,
    mid: usize,
    hi: usize,
) -> (r: Vec<usize>)
    requires
        lo <= mid <= hi <= key.len(),
        arranges(left@, lo as int, mid as int),
        arranges(right@, mid as int, hi as int),
    ensures
        arranges(r@, lo as int, hi as int),
{
    let mut r: Vec<usize> = Vec::new();
    let mut i: usize = 0;
    let mut j: usize = 0;
    while i < left.len() || j < right.len()
        invariant
            lo <= mid <= hi <= key.len(),
            arranges(left@, lo as int, mid as int),
            arranges(right@, mid as int, hi as int),
            i <= left@.len(),
            j <= right@.len(),
            r@.len() == i + j,
            r@.no_duplicates(),
            forall|k: int| 0 <= k < r@.len() ==> lo <= #[trigger] r@[k] < hi,
            forall|x: usize| #[trigger] r@.contains(x) ==> left@.take(i as int).contains(x) || right@.take(
                j as int,
            ).contains(x),
        decreases left@.len() + right@.len() - i - j,
    {
        let take_right = if i == left.len() {
            true
        } else if j == right.len() {
            false
        } else {
            precedes(polygon, key, right[j], left[i])
        };
        let ghost r0 = r@;
        let ghost i0 = i as int;
        let ghost j0 = j as int;
        if take_right {
            let x = right[j];
            proof {
                assert(!r0.contains(x)) by {
                    if r0.contains(x) {
                        if left@.take(i as int).contains(x) {
                            let w = choose|w: int| 0 <= w < i && left@.take(i as int)[w] == x;
                            assert(left@[w] < mid);
                        } else {
                            let w = choose|w: int| 0 <= w < j && right@.take(j as int)[w] == x;
                            assert(right@[w] == right@[j as int]);
                        }
                    }
                }
                assert(right@.take(j + 1) =~= right@.take(j as int).push(x));
            }
            r.push(x);
            j += 1;
        } else {
            let x = left[i];
            proof {
                assert(!r0.contains(x)) by {
                    if r0.contains(x) {
                        if right@.take(j as int).contains(x) {
                            let w = choose|w: int| 0 <= w < j && right@.take(j as int)[w] == x;
                            assert(right@[w] >= mid);
                        } else {
                            let w = choose|w: int| 0 <= w < i && left@.take(i as int)[w] == x;
                            assert(left@[w] == left@[i as int]);
                        }
                    }
                }
                assert(left@.take(i + 1) =~= left@.take(i as int).push(x));
            }
            r.push(x);
            i += 1;
        }
        proof {
            let x = r@[r0.len() as int];
            assert(r@ =~= r0.push(x));
            assert forall|a: int, b: int| 0 <= a < r@.len() && 0 <= b < r@.len() && a != b implies #[trigger] r@[a]
                != #[trigger] r@[b] by {
                if a == r0.len() {
                    assert(r@[b] == r0[b]);
                    assert(r0.contains(r0[b]));
                } else if b == r0.len() {
                    assert(r@[a] == r0[a]);
                    assert(r0.contains(r0[a]));
                } else {
                    assert(r@[a] == r0[a]);
                    assert(r@[b] == r0[b]);
                }
            }
            assert forall|y: usize| #[trigger] r@.contains(y) implies left@.take(i as int).contains(y)
                || right@.take(j as int).contains(y) by {
                let w = choose|w: int| 0 <= w < r@.len() && r@[w] == y;
                if w < r0.len() {
                    assert(r0[w] == y);
                    assert(r0.contains(y));
                    if left@.take(i0).contains(y) {
                        let w2 = choose|w2: int| 0 <= w2 < i0 && left@.take(i0)[w2] == y;
                        assert(left@.take(i as int)[w2] == y);
                    } else {
                        let w2 = choose|w2: int| 0 <= w2 < j0 && right@.take(j0)[w2] == y;
                        assert(right@.take(j as int)[w2] == y);
                    }
                } else if take_right {
                    assert(right@.take(j as int)[j - 1] == y);
                } else {
                    assert(left@.take(i as int)[i - 1] == y);
                }
            }
        }
    }
    r
}

} // verus!
