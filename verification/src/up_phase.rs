//! Bottom-up phase (Chazelle, Section 4.1): canonical submaps along the dyadic
//! hierarchy of subchains of the boundary.
use vstd::prelude::*;
use vstd::arithmetic::power2::{pow2, lemma_pow2_unfold, lemma_pow2_strictly_increases, lemma2_to64};
use crate::conformality::{maintain_granularity, restore_conformality};
use crate::fusion::{build_submap_from_chords, fuse_submaps};
use crate::geometry::PolygonGeometry;
use crate::submap::{Chord, Submap};

verus! {

/// A dyadic chain node in the grade hierarchy: the subchain of `num_edges`
/// edges from vertex `start_vertex`, its vertical extent and its submap.
#[derive(Debug, Clone)]
pub struct ChainGradeNode<P, S> {
    pub grade: usize,
    pub start_vertex: usize,
    pub num_edges: usize,
    pub min_y: S,
    pub max_y: S,
    pub submap: Submap<P, S>,
}

/// The computed canonical submaps of every grade `0..=p`.
pub struct UpPhaseHierarchy<P, S> {
    pub grades: Vec<Vec<ChainGradeNode<P, S>>>,
}

/// The nodes are consecutive subchains, each of at least one edge, together
/// running from vertex `a` to vertex `b`.
pub open spec fn spans<P, S>(nodes: Seq<ChainGradeNode<P, S>>, a: int, b: int) -> bool {
    &&& nodes.len() >= 1
    &&& nodes[0].start_vertex == a
    &&& forall|k: int| 0 <= k < nodes.len() ==> (#[trigger] nodes[k]).num_edges >= 1
    &&& forall|k: int|
        0 < k < nodes.len() ==> (#[trigger] nodes[k]).start_vertex == nodes[k - 1].start_vertex
            + nodes[k - 1].num_edges
    &&& nodes.last().start_vertex + nodes.last().num_edges == b
}

/// Every node of grade `g` is labelled `g`.
pub open spec fn graded<P, S>(nodes: Seq<ChainGradeNode<P, S>>, g: int) -> bool {
    forall|k: int| 0 <= k < nodes.len() ==> (#[trigger] nodes[k]).grade == g
}

/// The base chains of an `n`-gon: chain `k` starts at vertex `16 k` and has
/// 16 edges, but the last, which has what is left.
pub open spec fn base_chains_ok<P, S>(nodes: Seq<ChainGradeNode<P, S>>, n: int) -> bool {
    &&& nodes.len() == (n + 15) / 16
    &&& forall|k: int|
        0 <= k < nodes.len() ==> (#[trigger] nodes[k]).start_vertex == 16 * k && nodes[k].num_edges == if n
            - 16 * k < 16 {
            n - 16 * k
        } else {
            16
        }
}

/// The hierarchy of an `n`-gon: grade 0 cuts the boundary into chains of at
/// most 16 edges (the base chains), every grade covers the whole boundary in order, each grade
/// halves the number of chains of the one below (rounding up), and the top
/// grade is a single chain of all `n` edges.
pub open spec fn hierarchy_ok<P, S>(grades: Seq<Vec<ChainGradeNode<P, S>>>, n: int) -> bool {
    &&& grades.len() >= 1
    &&& forall|g: int| 0 <= g < grades.len() ==> spans(#[trigger] grades[g]@, 0, n)
    &&& forall|g: int| 0 <= g < grades.len() ==> graded(#[trigger] grades[g]@, g)
    &&& forall|k: int| 0 <= k < grades[0]@.len() ==> (#[trigger] grades[0]@[k]).num_edges <= 16
    &&& base_chains_ok(grades[0]@, n)
    &&& forall|g: int|
        0 <= g < grades.len() - 1 ==> (#[trigger] grades[g + 1])@.len() == (grades[g]@.len() + 1) / 2
    &&& grades.last()@.len() == 1
}

/// The granularity of grade `g`: `2` to the power `g / 4`.
pub open spec fn grade_gamma(g: int) -> int {
    pow2((g / 4) as nat) as int
}

/// The submap of every node of grade `g` is of granularity at most that of
/// its grade, and a node fused at grade `g` whose submap kept chords is of
/// exactly that granularity once it exceeds one.
pub open spec fn grades_granular<P, S>(grades: Seq<Vec<ChainGradeNode<P, S>>>) -> bool {
    &&& forall|g: int, k: int|
        0 <= g < grades.len() && 0 <= k < grades[g]@.len() ==> (#[trigger] grades[g]@[k]).submap.granularity
            <= grade_gamma(g)
    &&& forall|g: int, k: int|
        1 <= g < grades.len() && 0 <= k < grades[g]@.len() && 2 * k + 1 < grades[g - 1]@.len()
            && (#[trigger] grades[g]@[k]).submap.chords@.len() > 0 && grade_gamma(g) > 1
            ==> grades[g]@[k].submap.granularity == grade_gamma(g)
}

proof fn lemma_next_granular<P, S>(
    before: Seq<ChainGradeNode<P, S>>,
    node: ChainGradeNode<P, S>,
    after: Seq<ChainGradeNode<P, S>>,
    gamma: usize,
    len: int,
)
    requires
        after == before.push(node),
        forall|k: int| 0 <= k < before.len() ==> (#[trigger] before[k]).submap.granularity <= gamma,
        forall|k: int|
            0 <= k < before.len() && 2 * k + 1 < len && (#[trigger] before[k]).submap.chords@.len() > 0 && gamma > 1
                ==> before[k].submap.granularity == gamma,
        node.submap.granularity <= gamma,
        2 * before.len() + 1 < len && node.submap.chords@.len() > 0 && gamma > 1 ==> node.submap.granularity == gamma,
    ensures
        forall|k: int| 0 <= k < after.len() ==> (#[trigger] after[k]).submap.granularity <= gamma,
        forall|k: int|
            0 <= k < after.len() && 2 * k + 1 < len && (#[trigger] after[k]).submap.chords@.len() > 0 && gamma > 1
                ==> after[k].submap.granularity == gamma,
{
    assert forall|k: int| 0 <= k < after.len() implies (#[trigger] after[k]).submap.granularity <= gamma by {
        if k < before.len() {
            assert(after[k] == before[k]);
        }
    }
    assert forall|k: int|
        0 <= k < after.len() && 2 * k + 1 < len && (#[trigger] after[k]).submap.chords@.len() > 0 && gamma > 1
            implies after[k].submap.granularity == gamma by {
        if k < before.len() {
            assert(after[k] == before[k]);
        }
    }
}

proof fn lemma_grade_gamma(current_grade: usize, shift: usize, raw_gamma: usize)
    requires
        current_grade < 64,
        shift == (current_grade + 1) / 4,
        raw_gamma == 1usize << shift,
    ensures
        raw_gamma as int == grade_gamma(current_grade + 1),
        grade_gamma(current_grade as int) <= raw_gamma,
        raw_gamma >= 1,
{
    assert(shift <= 16);
    lemma2_to64();
    if shift < 16 {
        lemma_pow2_strictly_increases(shift as nat, 16);
    }
    vstd::bits::lemma_usize_shl_is_mul(1, shift);
    if current_grade / 4 < (current_grade + 1) / 4 {
        lemma_pow2_strictly_increases((current_grade / 4) as nat, ((current_grade + 1) / 4) as nat);
    }
    assert(pow2(0) >= 1);
    if shift > 0 {
        lemma_pow2_strictly_increases(0, shift as nat);
    }
}

proof fn lemma_granular_push<P, S>(old_grades: Seq<Vec<ChainGradeNode<P, S>>>, next: Vec<ChainGradeNode<P, S>>, gamma: usize)
    requires
        old_grades.len() >= 1,
        grades_granular(old_grades),
        gamma as int == grade_gamma(old_grades.len() as int),
        forall|k: int| 0 <= k < next@.len() ==> (#[trigger] next@[k]).submap.granularity <= gamma,
        forall|k: int|
            0 <= k < next@.len() && 2 * k + 1 < old_grades.last()@.len() && (#[trigger] next@[k]).submap.chords@.len()
                > 0 && gamma > 1 ==> next@[k].submap.granularity == gamma,
    ensures
        grades_granular(old_grades.push(next)),
{
    let gs = old_grades.push(next);
    assert forall|g: int, k: int|
        0 <= g < gs.len() && 0 <= k < gs[g]@.len() implies (#[trigger] gs[g]@[k]).submap.granularity
            <= grade_gamma(g) by {
        if g < old_grades.len() {
            assert(gs[g] == old_grades[g]);
        }
    }
    assert forall|g: int, k: int|
        1 <= g < gs.len() && 0 <= k < gs[g]@.len() && 2 * k + 1 < gs[g - 1]@.len()
            && (#[trigger] gs[g]@[k]).submap.chords@.len() > 0 && grade_gamma(g) > 1
            implies gs[g]@[k].submap.granularity == grade_gamma(g) by {
        assert(gs[g - 1] == old_grades[g - 1]);
        if g < old_grades.len() {
            assert(gs[g] == old_grades[g]);
        }
    }
}

proof fn lemma_halving_bound(k: int, g: nat, k0: int)
    requires
        k > 1,
        (k - 1) * pow2(g) <= k0 - 1,
    ensures
        ((k + 1) / 2 - 1) * pow2(g + 1) <= k0 - 1,
{
    lemma_pow2_unfold(g + 1);
    let h = (k + 1) / 2 - 1;
    assert(h * 2 <= k - 1);
    let p = pow2(g) as int;
    assert(h * (2 * p) == (h * 2) * p) by (nonlinear_arith);
    assert((h * 2) * p <= (k - 1) * p) by (nonlinear_arith)
        requires
            h * 2 <= k - 1,
            p >= 0,
    ;
}

impl<P: Copy, S: Copy> UpPhaseHierarchy<P, S> {
    /// Executes the up-phase on the polygon.
    pub fn build<G: PolygonGeometry<Point = P, Scalar = S>>(polygon: &G, n: usize) -> (h: Self)
        requires
            n < usize::MAX,
        ensures
            n < 3 ==> h.grades@.len() == 0,
            n >= 3 ==> hierarchy_ok(h.grades@, n as int),
            grades_granular(h.grades@),
    {
        Self::build_with_oracle(polygon, n)
    }

    /// Executes the up-phase: the chains of grade 0 are the runs of 16
    /// edges of the boundary, and each next grade fuses neighbouring pairs
    /// of chains (an odd last chain is carried up as it is), restoring
    /// conformality and thinning the fused submap to the grade's granularity.
    pub fn build_with_oracle<G: PolygonGeometry<Point = P, Scalar = S>>(polygon: &G, n: usize) -> (h: Self)
        requires
            n < usize::MAX,
        ensures
            n < 3 ==> h.grades@.len() == 0,
            n >= 3 ==> hierarchy_ok(h.grades@, n as int),
            grades_granular(h.grades@),
    {
        if n < 3 {
            return Self { grades: Vec::new() };
        }
        let mut grades: Vec<Vec<ChainGradeNode<P, S>>> = Vec::new();
        // Grade 0: base chains of at most 16 edges.
        let base_len: usize = 16;
        let mut grade_0: Vec<ChainGradeNode<P, S>> = Vec::new();
        let mut curr: usize = 0;
        while curr < n
            invariant
                3 <= n < usize::MAX,
                base_len == 16,
                curr <= n,
                grade_0@.len() <= curr,
                curr == 0 <==> grade_0@.len() == 0,
                curr > 0 ==> spans(grade_0@, 0, curr as int),
                graded(grade_0@, 0),
                forall|k: int| 0 <= k < grade_0@.len() ==> (#[trigger] grade_0@[k]).num_edges <= 16,
                curr == n || curr == 16 * grade_0@.len(),
                grade_0@.len() == (curr + 15) / 16,
                forall|k: int| 0 <= k < grade_0@.len() ==> (#[trigger] grade_0@[k]).submap.granularity == 1,
                forall|k: int|
                    0 <= k < grade_0@.len() ==> (#[trigger] grade_0@[k]).start_vertex == 16 * k
                        && grade_0@[k].num_edges == if n - 16 * k < 16 {
                        n - 16 * k
                    } else {
                        16
                    },
            decreases n - curr,
        {
            let edges = if n - curr < base_len {
                n - curr
            } else {
                base_len
            };
            let (min_y, max_y) = polygon.chain_y_range(curr, edges);
            let submap = build_submap_from_chords(Vec::<Chord<P, S>>::new(), curr, edges, polygon, n, 1);
            let node = ChainGradeNode { grade: 0, start_vertex: curr, num_edges: edges, min_y, max_y, submap };
            let ghost before = grade_0@;
            grade_0.push(node);
            proof {
                let s = grade_0@;
                assert(s == before.push(node));
                assert forall|k: int| 0 <= k < s.len() implies (#[trigger] s[k]).submap.granularity == 1 by {
                    if k < before.len() {
                        assert(s[k] == before[k]);
                    }
                }
                assert forall|k: int| 0 <= k < s.len() implies (#[trigger] s[k]).num_edges <= 16
                    && s[k].num_edges >= 1 && s[k].grade == 0 && s[k].start_vertex == 16 * k
                    && s[k].num_edges == if n - 16 * k < 16 {
                    n - 16 * k
                } else {
                    16
                } by {
                    if k < before.len() {
                        assert(s[k] == before[k]);
                    }
                }
                if before.len() > 0 {
                    assert forall|k: int| 0 < k < s.len() implies (#[trigger] s[k]).start_vertex
                        == s[k - 1].start_vertex + s[k - 1].num_edges by {
                        if k < before.len() {
                            assert(s[k] == before[k]);
                            assert(s[k - 1] == before[k - 1]);
                        }
                    }
                }
            }
            curr += edges;
        }
        let ghost k0 = grade_0@.len() as int;
        grades.push(grade_0);
        proof {
            lemma2_to64();
            assert(grade_gamma(0) == 1);
            assert(grades@[0] == grade_0);
        }
        // Successive grades 1, 2, ...
        let mut current_grade: usize = 0;
        proof {
            lemma2_to64();
        }
        while grades[current_grade].len() > 1
            invariant
                3 <= n < usize::MAX,
                1 <= k0 <= n,
                grades@.len() == current_grade + 1,
                forall|g: int| 0 <= g < grades@.len() ==> spans(#[trigger] grades@[g]@, 0, n as int),
                forall|g: int| 0 <= g < grades@.len() ==> graded(#[trigger] grades@[g]@, g),
                forall|k: int|
                    0 <= k < grades@[0]@.len() ==> (#[trigger] grades@[0]@[k]).num_edges <= 16,
                base_chains_ok(grades@[0]@, n as int),
                forall|g: int|
                    0 <= g < grades@.len() - 1 ==> (#[trigger] grades@[g + 1])@.len() == (
                    grades@[g]@.len() + 1) / 2,
                grades@[0]@.len() == k0,
                (grades@[current_grade as int]@.len() - 1) * pow2(current_grade as nat) <= k0 - 1,
                grades_granular(grades@),
            decreases grades@[current_grade as int]@.len(),
        {
            let ghost kg = grades@[current_grade as int]@.len() as int;
            proof {
                assert(pow2(current_grade as nat) <= k0 - 1) by (nonlinear_arith)
                    requires
                        kg > 1,
                        (kg - 1) * pow2(current_grade as nat) <= k0 - 1,
                ;
                lemma2_to64();
                if current_grade >= 64 {
                    if current_grade > 64 {
                        lemma_pow2_strictly_increases(64, current_grade as nat);
                    }
                    assert(false);
                }
            }
            let shift = (current_grade + 1) / 4;
            let raw_gamma: usize = 1usize << shift;
            let gamma = if raw_gamma >= 1 {
                raw_gamma
            } else {
                1
            };
            proof {
                lemma_grade_gamma(current_grade, shift, raw_gamma);
                assert forall|k: int| 0 <= k < grades@[current_grade as int]@.len() implies (
                #[trigger] grades@[current_grade as int]@[k]).submap.granularity <= gamma by {}
            }
            let next_nodes = Self::fuse_grade(&grades[current_grade], polygon, n, current_grade + 1, gamma);
            proof {
                lemma_halving_bound(kg, current_grade as nat, k0);
            }
            let ghost old_grades = grades@;
            grades.push(next_nodes);
            proof {
                lemma_granular_push(old_grades, next_nodes, gamma);
            }
            current_grade += 1;
        }
        Self { grades }
    }

    /// The submap of the chain joining `c1` and the chain `c2` that follows
    /// it: their submaps fused, made conformal again, and thinned to the
    /// granularity `gamma`.
    fn fused_submap<G: PolygonGeometry<Point = P, Scalar = S>>(
        c1: &ChainGradeNode<P, S>,
        c2: &ChainGradeNode<P, S>,
        polygon: &G,
        n: usize,
        gamma: usize,
    ) -> (s: Submap<P, S>)
        requires
            n > 0,
            c1.start_vertex + c1.num_edges <= usize::MAX,
            c2.start_vertex + c2.num_edges <= usize::MAX,
            c1.num_edges < usize::MAX,
            c2.num_edges < usize::MAX,
            c1.num_edges + c2.num_edges <= usize::MAX,
        ensures
            c1.submap.granularity <= gamma && c2.submap.granularity <= gamma ==> s.granularity <= gamma,
            s.chords@.len() > 0 && gamma > 1 ==> s.granularity == gamma,
    {
        let fused = fuse_submaps(
            &c1.submap,
            &c2.submap,
            polygon,
            n,
            c1.start_vertex,
            c1.num_edges,
            c1.min_y,
            c1.max_y,
            c2.start_vertex,
            c2.num_edges,
            c2.min_y,
            c2.max_y,
        );
        let ghost fused_view = fused;
        let conformal = restore_conformality(fused, polygon);
        proof {
            crate::fusion::lemma_normal_form_conformal(
                fused_view,
                c1.start_vertex as int,
                c1.num_edges + c2.num_edges,
                n as int,
            );
            assert(conformal.regions@ == fused_view.regions@);
        }
        maintain_granularity(conformal, gamma)
    }

    /// The next grade of the hierarchy: neighbouring pairs of chains are
    /// fused, and an odd last chain is carried up unchanged.
    #[verifier::rlimit(50)]
    fn fuse_grade<G: PolygonGeometry<Point = P, Scalar = S>>(
        prev_nodes: &Vec<ChainGradeNode<P, S>>,
        polygon: &G,
        n: usize,
        grade: usize,
        gamma: usize,
    ) -> (next: Vec<ChainGradeNode<P, S>>)
        requires
            0 < n < usize::MAX,
            prev_nodes@.len() > 1,
            spans(prev_nodes@, 0, n as int),
            forall|k: int| 0 <= k < prev_nodes@.len() ==> (#[trigger] prev_nodes@[k]).submap.granularity <= gamma,
        ensures
            spans(next@, 0, n as int),
            graded(next@, grade as int),
            next@.len() == (prev_nodes@.len() + 1) / 2,
            forall|k: int| 0 <= k < next@.len() ==> (#[trigger] next@[k]).submap.granularity <= gamma,
            forall|k: int|
                0 <= k < next@.len() && 2 * k + 1 < prev_nodes@.len() && (#[trigger] next@[k]).submap.chords@.len()
                    > 0 && gamma > 1 ==> next@[k].submap.granularity == gamma,
    {
        let len = prev_nodes.len();
        let mut next_nodes: Vec<ChainGradeNode<P, S>> = Vec::new();
        let mut i: usize = 0;
        proof {
            lemma_span_prefix_end(prev_nodes@, n as int, 0);
        }
        while i < len
            invariant
                0 < n < usize::MAX,
                len == prev_nodes@.len() > 1,
                spans(prev_nodes@, 0, n as int),
                i <= len,
                i % 2 == 0 || i == len,
                next_nodes@.len() == (i + 1) / 2,
                i > 0 ==> spans(next_nodes@, 0, (if i < len {
                    prev_nodes@[i as int].start_vertex as int
                } else {
                    n as int
                })),
                graded(next_nodes@, grade as int),
                forall|k: int| 0 <= k < prev_nodes@.len() ==> (#[trigger] prev_nodes@[k]).submap.granularity <= gamma,
                forall|k: int| 0 <= k < next_nodes@.len() ==> (#[trigger] next_nodes@[k]).submap.granularity <= gamma,
                forall|k: int|
                    0 <= k < next_nodes@.len() && 2 * k + 1 < len && (#[trigger] next_nodes@[k]).submap.chords@.len()
                        > 0 && gamma > 1 ==> next_nodes@[k].submap.granularity == gamma,
            decreases len - i,
        {
            let ghost before = next_nodes@;
            if i + 1 < len {
                let c1 = &prev_nodes[i];
                let c2 = &prev_nodes[i + 1];
                proof {
                    lemma_span_prefix_end(prev_nodes@, n as int, i as int);
                    lemma_span_prefix_end(prev_nodes@, n as int, i + 1);
                    assert(c2.start_vertex == c1.start_vertex + c1.num_edges);
                }
                let granular = Self::fused_submap(c1, c2, polygon, n, gamma);
                let (min_y, max_y) = polygon.join_y_ranges((c1.min_y, c1.max_y), (c2.min_y, c2.max_y));
                let node = ChainGradeNode {
                    grade,
                    start_vertex: c1.start_vertex,
                    num_edges: c1.num_edges + c2.num_edges,
                    min_y,
                    max_y,
                    submap: granular,
                };
                next_nodes.push(node);
                proof {
                    lemma_span_push(before, node, prev_nodes@, n as int, i as int, i + 2);
                    assert(prev_nodes@[i as int].submap.granularity <= gamma);
                    assert(prev_nodes@[i + 1].submap.granularity <= gamma);
                    lemma_next_granular(before, node, next_nodes@, gamma, len as int);
                }
                i += 2;
            } else {
                // Carry the odd last chain up.
                let p = &prev_nodes[i];
                proof {
                    lemma_span_prefix_end(prev_nodes@, n as int, i as int);
                }
                let node = ChainGradeNode {
                    grade,
                    start_vertex: p.start_vertex,
                    num_edges: p.num_edges,
                    min_y: p.min_y,
                    max_y: p.max_y,
                    submap: Submap {
                        regions: p.submap.regions.clone(),
                        chords: p.submap.chords.clone(),
                        granularity: p.submap.granularity,
                    },
                };
                next_nodes.push(node);
                proof {
                    lemma_span_push(before, node, prev_nodes@, n as int, i as int, i + 1);
                    assert(prev_nodes@[i as int].submap.granularity <= gamma);
                    lemma_next_granular(before, node, next_nodes@, gamma, len as int);
                }
                i += 1;
            }
        }
        next_nodes
    }

    /// The top-level submap, covering the whole polygon.
    pub fn top_submap(&self) -> (s: Option<&Submap<P, S>>)
        ensures
            self.grades@.len() == 0 || self.grades@.last()@.len() == 0 ==> s.is_none(),
            self.grades@.len() > 0 && self.grades@.last()@.len() > 0 ==> s == Some(
                &self.grades@.last()@[0].submap,
            ),
    {
        if self.grades.len() == 0 {
            return None;
        }
        let g = &self.grades[self.grades.len() - 1];
        if g.len() == 0 {
            None
        } else {
            Some(&g[0].submap)
        }
    }
}

/// In nodes spanning `0..n`, node `i` starts where node `i - 1` ends, and it
/// ends at `n` when it is the last.
proof fn lemma_span_prefix_end<P, S>(nodes: Seq<ChainGradeNode<P, S>>, n: int, i: int)
    requires
        spans(nodes, 0, n),
        0 <= i < nodes.len(),
    ensures
        0 <= nodes[i].start_vertex,
        nodes[i].start_vertex + nodes[i].num_edges <= n,
        nodes[i].num_edges >= 1,
        i + 1 < nodes.len() ==> nodes[i + 1].start_vertex == nodes[i].start_vertex + nodes[i].num_edges,
        i + 1 < nodes.len() ==> nodes[i].start_vertex + nodes[i].num_edges < n,
        i + 1 == nodes.len() ==> nodes[i].start_vertex + nodes[i].num_edges == n,
    decreases nodes.len() - i,
{
    if i + 1 < nodes.len() {
        lemma_span_prefix_end(nodes, n, i + 1);
        assert(nodes[i + 1].start_vertex == nodes[i].start_vertex + nodes[i].num_edges);
    }
    lemma_span_start_nonneg(nodes, n, i);
}

proof fn lemma_span_start_nonneg<P, S>(nodes: Seq<ChainGradeNode<P, S>>, n: int, i: int)
    requires
        spans(nodes, 0, n),
        0 <= i < nodes.len(),
    ensures
        0 <= nodes[i].start_vertex,
    decreases i,
{
    if i > 0 {
        lemma_span_start_nonneg(nodes, n, i - 1);
        assert(nodes[i].start_vertex == nodes[i - 1].start_vertex + nodes[i - 1].num_edges);
    }
}

/// Appending the node that covers the chains `i..j` of `prev` extends the
/// span of the next grade up to where chain `j` starts (or to `n`).
proof fn lemma_span_push<P, S>(
    before: Seq<ChainGradeNode<P, S>>,
    node: ChainGradeNode<P, S>,
    prev: Seq<ChainGradeNode<P, S>>,
    n: int,
    i: int,
    j: int,
)
    requires
        spans(prev, 0, n),
        0 <= i < j <= prev.len(),
        before.len() > 0 ==> spans(before, 0, prev[i].start_vertex as int),
        before.len() == 0 ==> i == 0,
        node.start_vertex == prev[i].start_vertex,
        node.num_edges >= 1,
        node.start_vertex + node.num_edges == (if j < prev.len() {
            prev[j].start_vertex as int
        } else {
            n
        }),
    ensures
        spans(before.push(node), 0, (if j < prev.len() {
            prev[j].start_vertex as int
        } else {
            n
        })),
{
    let s = before.push(node);
    if before.len() == 0 {
        assert(prev[0].start_vertex == 0);
    }
    assert forall|k: int| 0 < k < s.len() implies (#[trigger] s[k]).start_vertex == s[k - 1].start_vertex
        + s[k - 1].num_edges by {
        if k < before.len() {
            assert(s[k] == before[k]);
            assert(s[k - 1] == before[k - 1]);
        }
    }
    assert forall|k: int| 0 <= k < s.len() implies (#[trigger] s[k]).num_edges >= 1 by {
        if k < before.len() {
            assert(s[k] == before[k]);
        }
    }
}

} // verus!
