//! Top-down refinement phase (Chazelle, Section 4.2): refines the coarse
//! submaps of the hierarchy into the full visibility map V(P).
use vstd::prelude::*;
use crate::double_boundary::ChordDirection;
use crate::fusion::{build_submap_from_chords, normal_form, payload_in, same_payload};
use crate::geometry::PolygonGeometry;
use crate::submap::{Chord, Submap, chord_from_hit};
use crate::up_phase::UpPhaseHierarchy;

verus! {

/// The chords of the top submap of `h`, none when it has no top submap.
pub open spec fn top_chords<P, S>(h: UpPhaseHierarchy<P, S>) -> Seq<Chord<P, S>> {
    if h.grades@.len() > 0 && h.grades@.last()@.len() > 0 {
        h.grades@.last()@[0].submap.chords@
    } else {
        Seq::empty()
    }
}

/// The chord `c` is traced by a ray from one of the `n` vertices.
pub open spec fn traced_from_vertex<P, S>(c: Chord<P, S>, n: int) -> bool {
    match c.origin_vertex {
        Some(v) => (v as int) < n,
        None => false,
    }
}

/// Executes the down-phase: the chords of the top submap of `hierarchy` are
/// completed by the interior horizontal rays of every vertex, and the result
/// is put in normal form with granularity 1.
pub fn run_down_phase<G: PolygonGeometry>(
    hierarchy: &UpPhaseHierarchy<G::Point, G::Scalar>,
    polygon: &G,
    n: usize,
) -> (s: Submap<G::Point, G::Scalar>)
    requires
        n > 0,
    ensures
        normal_form(s, 0, n as int, n as int),
        s.granularity == 1,
        hierarchy.grades@.len() > 0 && hierarchy.grades@.last()@.len() > 0
            && hierarchy.grades@.last()@[0].submap.chords@.len() > 0 ==> s.chords@.len() > 0,
        s.chords@.len() <= top_chords(*hierarchy).len() + 2 * n,
        forall|i: int|
            0 <= i < s.chords@.len() ==> payload_in(#[trigger] s.chords@[i], top_chords(*hierarchy))
                || traced_from_vertex(s.chords@[i], n as int),
{
    // Collect all chords from the top submap.
    let mut all_chords: Vec<Chord<G::Point, G::Scalar>> = Vec::new();
    let top_opt = hierarchy.top_submap();
    if let Some(top) = top_opt {
        let mut i: usize = 0;
        while i < top.chords.len()
            invariant
                i <= top.chords@.len(),
                top.chords@ == top_chords(*hierarchy),
                all_chords@.len() == i,
                forall|k: int| 0 <= k < i ==> #[trigger] all_chords@[k] == top.chords@[k],
            decreases top.chords@.len() - i,
        {
            all_chords.push(top.chords[i]);
            i += 1;
        }
    }
    // Every vertex shoots its interior horizontal rays to complete V(P).
    let dirs = [ChordDirection::Left, ChordDirection::Right];
    let ghost base = all_chords@.len();
    let ghost top = top_chords(*hierarchy);
    proof {
        assert(base == top.len());
        assert forall|k: int| 0 <= k < base implies payload_in(#[trigger] all_chords@[k], top) by {
            assert(all_chords@[k] == top[k]);
        }
    }
    let mut v_idx: usize = 0;
    while v_idx < n
        invariant
            v_idx <= n,
            base == top.len(),
            base <= all_chords@.len() <= base + 2 * v_idx,
            forall|k: int|
                0 <= k < all_chords@.len() ==> payload_in(#[trigger] all_chords@[k], top) || traced_from_vertex(
                    all_chords@[k],
                    n as int,
                ),
        decreases n - v_idx,
    {
        let mut di: usize = 0;
        while di < 2
            invariant
                di <= 2,
                v_idx < n,
                base == top.len(),
                base <= all_chords@.len() <= base + 2 * v_idx + di,
                forall|k: int|
                    0 <= k < all_chords@.len() ==> payload_in(#[trigger] all_chords@[k], top) || traced_from_vertex(
                        all_chords@[k],
                        n as int,
                    ),
            decreases 2 - di,
        {
            let dir = dirs[di];
            if polygon.direction_is_interior(v_idx, dir) {
                if let Some((hit_pt, hit_edge)) = polygon.vertex_hit(v_idx, dir) {
                    let p = polygon.vertex_point(v_idx);
                    let y = polygon.vertex_y(v_idx);
                    let mut c = chord_from_hit(v_idx, dir, p, y, hit_pt, hit_edge);
                    c.id = all_chords.len();
                    let ghost before = all_chords@;
                    all_chords.push(c);
                    proof {
                        assert forall|k: int|
                            0 <= k < all_chords@.len() implies payload_in(#[trigger] all_chords@[k], top)
                                || traced_from_vertex(all_chords@[k], n as int) by {
                            if k < before.len() {
                                assert(all_chords@[k] == before[k]);
                            }
                        }
                    }
                }
            }
            di += 1;
        }
        v_idx += 1;
    }
    // The fully refined visibility map of granularity 1.
    let ghost all = all_chords@;
    let s = build_submap_from_chords(all_chords, 0, n, polygon, n, 1);
    proof {
        assert forall|i: int| 0 <= i < s.chords@.len() implies payload_in(#[trigger] s.chords@[i], top)
            || traced_from_vertex(s.chords@[i], n as int) by {
            assert(payload_in(s.chords@[i], all));
            let j = choose|j: int| 0 <= j < all.len() && same_payload(s.chords@[i], all[j]);
            if payload_in(all[j], top) {
                let t = choose|t: int| 0 <= t < top.len() && same_payload(all[j], top[t]);
                assert(same_payload(s.chords@[i], top[t]));
            }
        }
    }
    s
}

} // verus!
