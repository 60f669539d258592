//! Fusion of two submaps (Chazelle, Section 3.1) and the normal form of a
//! submap built from a set of chords.
use vstd::prelude::*;
use crate::double_boundary::ChordDirection;
use crate::geometry::PolygonGeometry;
use crate::submap::{Chord, Submap, SubmapArc, SubmapRegion, chord_closed, chord_from_hit, regions_joined};

verus! {

/// Two chords agree on everything but their identifier and regions.
pub open spec fn same_payload<P, S>(a: Chord<P, S>, b: Chord<P, S>) -> bool {
    &&& a.y == b.y
    &&& a.left_pt == b.left_pt
    &&& a.right_pt == b.right_pt
    &&& a.origin_vertex == b.origin_vertex
    &&& a.hit_edge == b.hit_edge
    &&& a.hit_pt == b.hit_pt
}

/// Vertex `v` is one of the vertices `start, ..., start + edges` (taken
/// round the polygon) of a chain of an `n`-gon.
pub open spec fn chain_vertex(v: usize, start: int, edges: int, n: int) -> bool {
    exists|off: int| 0 <= off <= edges && v as int == #[trigger] ring_index(start, off, n)
}

/// The vertex `off` places after vertex `start` round an `n`-gon.
pub open spec fn ring_index(start: int, off: int, n: int) -> int {
    (start + off) % n
}

/// The chord `c` is traced by a ray from a vertex of the chain of `edges`
/// edges from `start`.
pub open spec fn from_chain<P, S>(c: Chord<P, S>, start: int, edges: int, n: int) -> bool {
    match c.origin_vertex {
        Some(v) => chain_vertex(v, start, edges, n),
        None => false,
    }
}

/// `c` is one of the chords of `src`.
pub open spec fn one_of<P, S>(c: Chord<P, S>, src: Seq<Chord<P, S>>) -> bool {
    exists|j: int| 0 <= j < src.len() && src[j] == c
}

/// Every chord of `out` carries the payload of some chord of `src`.
pub open spec fn chords_drawn_from<P, S>(out: Seq<Chord<P, S>>, src: Seq<Chord<P, S>>) -> bool {
    forall|i: int| 0 <= i < out.len() ==> payload_in(#[trigger] out[i], src)
}

/// `c` carries the payload of some chord of `src`.
pub open spec fn payload_in<P, S>(c: Chord<P, S>, src: Seq<Chord<P, S>>) -> bool {
    exists|j: int| 0 <= j < src.len() && same_payload(c, src[j])
}

/// The first edge of the arc of region `r` among `num_regions` regions laid
/// over the `num_edges` edges from `chain_start` of an `n`-gon.
pub open spec fn arc_edge(chain_start: int, r: int, num_edges: int, num_regions: int, n: int) -> int {
    (chain_start + (r * num_edges) / num_regions) % n
}

/// Edge count given to each region's arc (and its weight).
pub open spec fn arc_len(num_edges: int, num_regions: int) -> int {
    if num_edges / num_regions >= 1 {
        num_edges / num_regions
    } else {
        1
    }
}

/// The regions of a submap in normal form: chord `i` separates regions `i`
/// and `i + 1`, and region `r` has one arc, its share of the subchain.
pub open spec fn normal_form<P, S>(s: Submap<P, S>, chain_start: int, num_edges: int, n: int) -> bool {
    let num_c = s.chords@.len() as int;
    let num_r = num_c + 1;
    &&& s.regions@.len() == num_r
    &&& forall|i: int|
        0 <= i < num_c ==> (#[trigger] s.chords@[i]).id == i && s.chords@[i].region1 == i
            && s.chords@[i].region2 == i + 1
    &&& forall|r: int|
        0 <= r < num_r ==> {
            let reg = #[trigger] s.regions@[r];
            &&& reg.id == r
            &&& reg.chords@ == (if r > 0 {
                seq![(r - 1) as usize]
            } else {
                Seq::<usize>::empty()
            }) + (if r < num_c {
                seq![r as usize]
            } else {
                Seq::<usize>::empty()
            })
            &&& reg.arcs@.len() == 1
            &&& reg.arcs@[0].start_edge == arc_edge(chain_start, r, num_edges, num_r, n)
            &&& reg.arcs@[0].end_edge == arc_edge(chain_start, r + 1, num_edges, num_r, n)
            &&& reg.arcs@[0].num_edges == arc_len(num_edges, num_r)
            &&& reg.weight == arc_len(num_edges, num_r)
        }
}

proof fn lemma_share_bound(r: int, e: int, m: int)
    by (nonlinear_arith)
    requires
        0 <= r <= m,
        0 < m,
        0 <= e,
    ensures
        0 <= (r * e) / m <= e,
        r * e <= m * e,
{
    assert(r * e <= m * e);
}

/// `(chain_start + (r * num_edges) / num_regions) % n`, without overflow.
fn arc_edge_exec(chain_start: usize, r: u128, num_edges: usize, num_regions: u128, n: usize) -> (e: usize)
    requires
        r <= num_regions <= usize::MAX as int + 1,
        num_regions > 0,
        n > 0,
    ensures
        e == arc_edge(chain_start as int, r as int, num_edges as int, num_regions as int, n as int),
        e < n,
{
    proof {
        lemma_share_bound(r as int, num_edges as int, num_regions as int);
        vstd::arithmetic::mul::lemma_mul_upper_bound(
            r as int,
            usize::MAX as int + 1,
            num_edges as int,
            usize::MAX as int,
        );
        assert((usize::MAX as int + 1) * (usize::MAX as int) <= u128::MAX) by (nonlinear_arith);
    }
    let prod: u128 = r * (num_edges as u128);
    let share: u128 = prod / num_regions;
    let total: u128 = (chain_start as u128) + share;
    let e: u128 = total % (n as u128);
    e as usize
}

/// Builds the submap in normal form of a subchain from a collection of
/// chords: the chords are sorted by height, chords coinciding with the one
/// kept just before them are dropped, the rest are numbered in order, and the
/// regions between consecutive chords share the subchain's edges.
pub fn build_submap_from_chords<G: PolygonGeometry>(
    chords: Vec<Chord<G::Point, G::Scalar>>,
    chain_start: usize,
    num_edges: usize,
    polygon: &G,
    n: usize,
    granularity: usize,
) -> (s: Submap<G::Point, G::Scalar>)
    requires
        n > 0,
    ensures
        normal_form(s, chain_start as int, num_edges as int, n as int),
        s.chords@.len() <= chords@.len(),
        chords@.len() > 0 ==> s.chords@.len() > 0,
        chords_drawn_from(s.chords@, chords@),
        s.granularity == granularity,
{
    // Sort the chords by y.
    let len = chords.len();
    let order = crate::sorting::sorted_positions(polygon, &crate::sorting::SortKey::Chords(chords.as_slice()));
    let mut sorted: Vec<Chord<G::Point, G::Scalar>> = Vec::with_capacity(len);
    let mut k: usize = 0;
    while k < len
        invariant
            k <= len == chords@.len(),
            crate::monotone::is_arrangement(order@, len as int),
            sorted@.len() == k,
            forall|i: int| 0 <= i < k ==> one_of(#[trigger] sorted@[i], chords@),
        decreases len - k,
    {
        let c = chords[order[k]];
        proof {
            let j = order@[k as int] as int;
            assert(chords@[j] == c);
            assert(one_of(c, chords@));
            assert forall|i: int| 0 <= i < k + 1 implies one_of(#[trigger] sorted@.push(c)[i], chords@) by {
                if i < k {
                    assert(sorted@.push(c)[i] == sorted@[i]);
                }
            }
        }
        sorted.push(c);
        k += 1;
    }
    // Drop chords that coincide with the last one kept.

    let mut unique: Vec<Chord<G::Point, G::Scalar>> = Vec::new();
    let mut k: usize = 0;
    while k < len
        invariant
            k <= len == chords@.len() == sorted@.len(),
            unique@.len() <= k,
            k > 0 ==> unique@.len() > 0,
            forall|i: int| 0 <= i < len ==> one_of(#[trigger] sorted@[i], chords@),
            forall|i: int| 0 <= i < unique@.len() ==> one_of(#[trigger] unique@[i], chords@),
        decreases len - k,
    {
        let c = sorted[k];
        let mut duplicate = false;
        if unique.len() > 0 {
            duplicate = polygon.same_chord(&unique[unique.len() - 1], &c);
        }
        if !duplicate {
            proof {
                assert(one_of(sorted@[k as int], chords@));
                assert forall|a: int| 0 <= a < unique@.len() + 1 implies one_of(
                    #[trigger] unique@.push(c)[a],
                    chords@,
                ) by {
                    if a < unique@.len() {
                        assert(unique@.push(c)[a] == unique@[a]);
                    }
                }
            }
            unique.push(c);
        }
        k += 1;
    }
    // Number the chords and link each to the regions on its two sides.

    let num_c = unique.len();
    let mut linked: Vec<Chord<G::Point, G::Scalar>> = Vec::with_capacity(num_c);
    let mut i: usize = 0;
    while i < num_c
        invariant
            i <= num_c == unique@.len(),
            num_c <= len == chords@.len(),
            linked@.len() == i,
            forall|a: int| 0 <= a < unique@.len() ==> one_of(#[trigger] unique@[a], chords@),
            forall|a: int|
                0 <= a < i ==> (#[trigger] linked@[a]).id == a && linked@[a].region1 == a
                    && linked@[a].region2 == a + 1,
            forall|a: int| 0 <= a < i ==> same_payload(#[trigger] linked@[a], unique@[a]),
        decreases num_c - i,
    {
        let c = unique[i];
        linked.push(
            Chord {
                id: i,
                y: c.y,
                left_pt: c.left_pt,
                right_pt: c.right_pt,
                origin_vertex: c.origin_vertex,
                hit_edge: c.hit_edge,
                hit_pt: c.hit_pt,
                region1: i,
                region2: i + 1,
            },
        );
        i += 1;
    }
    let ghost lk = linked@;
    proof {
        assert forall|a: int| 0 <= a < linked@.len() implies payload_in(#[trigger] linked@[a], chords@) by {
            assert(one_of(unique@[a], chords@));
            let j = choose|j: int| 0 <= j < chords@.len() && chords@[j] == unique@[a];
            assert(same_payload(linked@[a], chords@[j]));
        }
        assert(chords_drawn_from(linked@, chords@));
    }
    // Build the regions between consecutive chords.

    let num_regions: u128 = (num_c as u128) + 1;
    let ghost nr = num_c + 1;
    let share = ((num_edges as u128) / num_regions) as usize;
    let edges_count = if share >= 1 {
        share
    } else {
        1
    };
    let mut regions: Vec<SubmapRegion<G::Point>> = Vec::new();
    let mut r: usize = 0;
    let mut done = false;
    while !done
        invariant
            num_regions == nr == num_c + 1,
            num_c <= usize::MAX,
            n > 0,
            share == num_edges as int / nr,
            edges_count == arc_len(num_edges as int, nr),
            linked@ == lk,
            lk.len() == num_c <= chords@.len(),
            chords_drawn_from(lk, chords@),
            forall|a: int|
                0 <= a < num_c ==> (#[trigger] lk[a]).id == a && lk[a].region1 == a
                    && lk[a].region2 == a + 1,
            r <= num_c,
            !done ==> regions@.len() == r,
            done ==> regions@.len() == nr,
            forall|q: int|
                0 <= q < regions@.len() ==> {
                    let reg = #[trigger] regions@[q];
                    &&& reg.id == q
                    &&& reg.chords@ == (if q > 0 {
                        seq![(q - 1) as usize]
                    } else {
                        Seq::<usize>::empty()
                    }) + (if q < num_c {
                        seq![q as usize]
                    } else {
                        Seq::<usize>::empty()
                    })
                    &&& reg.arcs@.len() == 1
                    &&& reg.arcs@[0].start_edge == arc_edge(
                        chain_start as int,
                        q,
                        num_edges as int,
                        nr,
                        n as int,
                    )
                    &&& reg.arcs@[0].end_edge == arc_edge(
                        chain_start as int,
                        q + 1,
                        num_edges as int,
                        nr,
                        n as int,
                    )
                    &&& reg.arcs@[0].num_edges == arc_len(num_edges as int, nr)
                    &&& reg.weight == arc_len(num_edges as int, nr)
                },
        decreases num_c - r, (if done { 0int } else { 1int }),
    {
        let mut reg: SubmapRegion<G::Point> = SubmapRegion::new(r);
        if r > 0 {
            reg.chords.push(r - 1);
        }
        if r < num_c {
            reg.chords.push(r);
        }
        let start_e = arc_edge_exec(chain_start, r as u128, num_edges, num_regions, n);
        let end_e = arc_edge_exec(chain_start, (r as u128) + 1, num_edges, num_regions, n);
        reg.arcs.push(
            SubmapArc {
                start_edge: start_e,
                end_edge: end_e,
                start_pt: polygon.vertex_point(start_e),
                end_pt: polygon.vertex_point(end_e),
                num_edges: edges_count,
            },
        );
        reg.weight = edges_count;
        proof {
            assert(reg.chords@ =~= (if r > 0 {
                seq![(r - 1) as usize]
            } else {
                Seq::<usize>::empty()
            }) + (if r < num_c {
                seq![r as usize]
            } else {
                Seq::<usize>::empty()
            }));
        }
        regions.push(reg);
        if r == num_c {
            done = true;
        } else {
            r += 1;
        }
    }
    Submap { regions, chords: linked, granularity }
}

/// Fuses the submaps `s1` and `s2` of the adjacent subchains C1 (`c1_edges`
/// edges from `c1_start`) and C2 into the submap of their union: the chords of
/// both are kept, and when the vertical extents of the chains overlap, every
/// vertex of each chain within the overlap shoots its interior horizontal
/// rays at the other chain.
pub fn fuse_submaps<G: PolygonGeometry>(
    s1: &Submap<G::Point, G::Scalar>,
    s2: &Submap<G::Point, G::Scalar>,
    polygon: &G,
    n: usize,
    c1_start: usize,
    c1_edges: usize,
    c1_min_y: G::Scalar,
    c1_max_y: G::Scalar,
    c2_start: usize,
    c2_edges: usize,
    c2_min_y: G::Scalar,
    c2_max_y: G::Scalar,
) -> (s: Submap<G::Point, G::Scalar>)
    requires
        n > 0,
        c1_start + c1_edges <= usize::MAX,
        c2_start + c2_edges <= usize::MAX,
        c1_edges < usize::MAX,
        c2_edges < usize::MAX,
        c1_edges + c2_edges <= usize::MAX,
    ensures
        normal_form(s, c1_start as int, c1_edges + c2_edges, n as int),
        s.granularity == if s1.granularity >= s2.granularity {
            s1.granularity
        } else {
            s2.granularity
        },
        s1.chords@.len() + s2.chords@.len() > 0 ==> s.chords@.len() > 0,
        forall|i: int|
            0 <= i < s.chords@.len() ==> payload_in(#[trigger] s.chords@[i], s1.chords@ + s2.chords@) || from_chain(
                s.chords@[i],
                c1_start as int,
                c1_edges as int,
                n as int,
            ) || from_chain(s.chords@[i], c2_start as int, c2_edges as int, n as int),
{
    let band = polygon.overlap_band((c1_min_y, c1_max_y), (c2_min_y, c2_max_y));
    fuse_submaps_in_band(s1, s2, polygon, n, c1_start, c1_edges, c2_start, c2_edges, band)
}

/// The fusion of [`fuse_submaps`] once the overlap `band` of the chains'
/// vertical extents is known: the chords of S1, then those of S2, renumbered
/// in that order; then, when there is a band, the fusion walks of both
/// chains; and the submap in normal form of all of them. Without a band no
/// ray is shot, and every chord of the result is one of S1 or S2.
pub fn fuse_submaps_in_band<G: PolygonGeometry>(
    s1: &Submap<G::Point, G::Scalar>,
    s2: &Submap<G::Point, G::Scalar>,
    polygon: &G,
    n: usize,
    c1_start: usize,
    c1_edges: usize,
    c2_start: usize,
    c2_edges: usize,
    band: Option<(G::Scalar, G::Scalar)>,
) -> (s: Submap<G::Point, G::Scalar>)
    requires
        n > 0,
        c1_start + c1_edges <= usize::MAX,
        c2_start + c2_edges <= usize::MAX,
        c1_edges < usize::MAX,
        c2_edges < usize::MAX,
        c1_edges + c2_edges <= usize::MAX,
    ensures
        normal_form(s, c1_start as int, c1_edges + c2_edges, n as int),
        s.granularity == if s1.granularity >= s2.granularity {
            s1.granularity
        } else {
            s2.granularity
        },
        s1.chords@.len() + s2.chords@.len() > 0 ==> s.chords@.len() > 0,
        band is None ==> chords_drawn_from(s.chords@, s1.chords@ + s2.chords@),
        forall|i: int|
            0 <= i < s.chords@.len() ==> payload_in(#[trigger] s.chords@[i], s1.chords@ + s2.chords@) || from_chain(
                s.chords@[i],
                c1_start as int,
                c1_edges as int,
                n as int,
            ) || from_chain(s.chords@[i], c2_start as int, c2_edges as int, n as int),
{
    let ghost src = s1.chords@ + s2.chords@;
    let mut merged_chords: Vec<Chord<G::Point, G::Scalar>> = Vec::new();
    // 1. Keep the chords of S1, then those of S2, numbered in that order.
    let mut i: usize = 0;
    while i < s1.chords.len()
        invariant
            i <= s1.chords@.len(),
            src == s1.chords@ + s2.chords@,
            merged_chords@.len() == i,
            forall|k: int| 0 <= k < i ==> same_payload(#[trigger] merged_chords@[k], src[k]),
        decreases s1.chords@.len() - i,
    {
        let mut c = s1.chords[i];
        c.id = merged_chords.len();
        merged_chords.push(c);
        i += 1;
    }
    let mut i: usize = 0;
    while i < s2.chords.len()
        invariant
            i <= s2.chords@.len(),
            src == s1.chords@ + s2.chords@,
            merged_chords@.len() == s1.chords@.len() + i,
            forall|k: int| 0 <= k < merged_chords@.len() ==> same_payload(#[trigger] merged_chords@[k], src[k]),
        decreases s2.chords@.len() - i,
    {
        let mut c = s2.chords[i];
        c.id = merged_chords.len();
        merged_chords.push(c);
        i += 1;
    }
    // 2. Fusion walk: rays are shot only where the vertical extents overlap.
    if let Some(band) = band {
        fusion_walk(polygon, n, band, c1_start, c1_edges, c2_start, c2_edges, &mut merged_chords);
        fusion_walk(polygon, n, band, c2_start, c2_edges, c1_start, c1_edges, &mut merged_chords);
    }
    proof {
        assert forall|k: int| 0 <= k < merged_chords@.len() implies payload_in(#[trigger] merged_chords@[k], src)
            || from_chain(merged_chords@[k], c1_start as int, c1_edges as int, n as int) || from_chain(
            merged_chords@[k],
            c2_start as int,
            c2_edges as int,
            n as int,
        ) by {
            if k < src.len() {
                assert(same_payload(merged_chords@[k], src[k]));
            }
        }
    }
    let granularity = if s1.granularity >= s2.granularity {
        s1.granularity
    } else {
        s2.granularity
    };
    let ghost merged = merged_chords@;
    let s = build_submap_from_chords(merged_chords, c1_start, c1_edges + c2_edges, polygon, n, granularity);
    proof {
        assert forall|i: int| 0 <= i < s.chords@.len() implies payload_in(#[trigger] s.chords@[i], src) || from_chain(
            s.chords@[i],
            c1_start as int,
            c1_edges as int,
            n as int,
        ) || from_chain(s.chords@[i], c2_start as int, c2_edges as int, n as int) by {
            assert(payload_in(s.chords@[i], merged));
            let j = choose|j: int| 0 <= j < merged.len() && same_payload(s.chords@[i], merged[j]);
            if payload_in(merged[j], src) {
                let t = choose|t: int| 0 <= t < src.len() && same_payload(merged[j], src[t]);
                assert(same_payload(s.chords@[i], src[t]));
            }
        }
        if band is None {
            assert forall|i: int| 0 <= i < s.chords@.len() implies payload_in(#[trigger] s.chords@[i], src) by {
                assert(payload_in(s.chords@[i], merged));
                let j = choose|j: int| 0 <= j < merged.len() && same_payload(s.chords@[i], merged[j]);
                assert(same_payload(merged[j], src[j]));
            }
        }
    }
    s
}

/// Every vertex of the chain `from` whose height lies in `band` shoots each of
/// its interior horizontal rays at the chain `to`; the chords found are
/// appended, numbered after those already there.
fn fusion_walk<G: PolygonGeometry>(
    polygon: &G,
    n: usize,
    band: (G::Scalar, G::Scalar),
    from_start: usize,
    from_edges: usize,
    to_start: usize,
    to_edges: usize,
    chords: &mut Vec<Chord<G::Point, G::Scalar>>,
)
    requires
        n > 0,
        from_start + from_edges <= usize::MAX,
        from_edges < usize::MAX,
    ensures
        final(chords)@.len() >= old(chords)@.len(),
        final(chords)@.len() <= old(chords)@.len() + 2 * (from_edges + 1),
        forall|i: int| 0 <= i < old(chords)@.len() ==> final(chords)@[i] == old(chords)@[i],
        forall|i: int|
            old(chords)@.len() <= i < final(chords)@.len() ==> (#[trigger] final(chords)@[i]).id == i
                && final(chords)@[i].region1 == 0 && final(chords)@[i].region2 == 0
                && from_chain(final(chords)@[i], from_start as int, from_edges as int, n as int),
{
    let dirs = [ChordDirection::Left, ChordDirection::Right];
    let mut offset: usize = 0;
    while offset <= from_edges
        invariant
            n > 0,
            from_start + from_edges <= usize::MAX,
            from_edges < usize::MAX,
            offset <= from_edges + 1,
            chords@.len() >= old(chords)@.len(),
            chords@.len() <= old(chords)@.len() + 2 * offset,
            forall|i: int| 0 <= i < old(chords)@.len() ==> chords@[i] == old(chords)@[i],
            forall|i: int|
                old(chords)@.len() <= i < chords@.len() ==> (#[trigger] chords@[i]).id == i && chords@[i].region1
                    == 0 && chords@[i].region2 == 0 && from_chain(chords@[i], from_start as int, from_edges as int, n as int),
        decreases from_edges + 1 - offset,
    {
        let v_idx = (from_start + offset) % n;
        if polygon.vertex_in_band(v_idx, band) {
            let mut di: usize = 0;
            while di < 2
                invariant
                    di <= 2,
                    offset <= from_edges,
                    chords@.len() >= old(chords)@.len(),
                    chords@.len() <= old(chords)@.len() + 2 * offset + di,
                    forall|i: int| 0 <= i < old(chords)@.len() ==> chords@[i] == old(chords)@[i],
                    forall|i: int|
                        old(chords)@.len() <= i < chords@.len() ==> (#[trigger] chords@[i]).id == i
                            && chords@[i].region1 == 0 && chords@[i].region2 == 0 && from_chain(chords@[i], from_start as int, from_edges as int, n as int),
                    v_idx as int == (from_start + offset) % (n as int),
                decreases 2 - di,
            {
                let dir = dirs[di];
                if polygon.direction_is_interior(v_idx, dir) {
                    if let Some((hit_pt, hit_edge)) = polygon.chain_hit(v_idx, dir, to_start, to_edges) {
                        let p = polygon.vertex_point(v_idx);
                        let y = polygon.vertex_y(v_idx);
                        let mut c = chord_from_hit(v_idx, dir, p, y, hit_pt, hit_edge);
                        c.id = chords.len();
                        proof {
                            assert(chain_vertex(v_idx, from_start as int, from_edges as int, n as int)) by {
                                assert(0 <= offset <= from_edges);
                                assert(v_idx as int == ring_index(from_start as int, offset as int, n as int));
                            }
                        }
                        chords.push(c);
                    }
                }
                di += 1;
            }
        }
        offset += 1;
    }
}

/// Every region of a submap in normal form has at most two chords and one
/// arc, so it is conformal: making such a submap conformal changes nothing.
pub proof fn lemma_normal_form_conformal<P, S>(s: Submap<P, S>, chain_start: int, num_edges: int, n: int)
    requires
        normal_form(s, chain_start, num_edges, n),
    ensures
        crate::conformality::all_conformal(s.regions@),
        forall|r: int| 0 <= r < s.regions@.len() ==> (#[trigger] s.regions@[r]).chords@.len() <= 2,
{
    assert forall|r: int| 0 <= r < s.regions@.len() implies (#[trigger] s.regions@[r]).conformal()
        && s.regions@[r].chords@.len() <= 2 by {
        let reg = s.regions@[r];
        assert(reg.arcs@.len() == 1);
    }
}

/// In a submap of normal form the chords join all of its regions: chord `i`
/// lies between regions `i` and `i + 1`, so the centroid tree of such a
/// submap has every region as a leaf exactly once.
pub proof fn lemma_normal_form_joined<P, S>(s: Submap<P, S>, chain_start: int, num_edges: int, n: int)
    requires
        normal_form(s, chain_start, num_edges, n),
    ensures
        regions_joined(s.chords@, s.regions@.len() as int),
{
    let m = s.regions@.len() as int;
    assert forall|st: Set<usize>| #[trigger] chord_closed(s.chords@, m, st) && st.contains(0) implies forall|x: usize|
        (x as int) < m ==> st.contains(x) by {
        assert forall|x: usize| (x as int) < m implies st.contains(x) by {
            lemma_closed_upto(s, chain_start, num_edges, n, st, x as int);
        }
    }
}

proof fn lemma_closed_upto<P, S>(s: Submap<P, S>, chain_start: int, num_edges: int, n: int, st: Set<usize>, x: int)
    requires
        normal_form(s, chain_start, num_edges, n),
        chord_closed(s.chords@, s.regions@.len() as int, st),
        st.contains(0),
        0 <= x < s.regions@.len(),
    ensures
        st.contains(x as usize),
    decreases x,
{
    if x > 0 {
        lemma_closed_upto(s, chain_start, num_edges, n, st, x - 1);
        let c = s.chords@[x - 1];
        assert(c.region1 == (x - 1) as usize && c.region2 == x as usize);
    }
}

} // verus!
