//! Normal-form representation of visibility submaps and their centroid tree
//! decomposition (Chazelle, Sections 2.2-2.4).
//!
//! The coordinates carried by chords and arcs are of the caller's types:
//! `P` for points and `S` for scalars. Nothing here reads them.
use vstd::prelude::*;
use crate::double_boundary::ChordDirection;
use std::collections::HashSet;

verus! {

/// A horizontal chord in a visibility submap.
#[derive(Debug, Clone, Copy, PartialEq)]
pub struct Chord<P, S> {
    pub id: usize,
    pub y: S,
    pub left_pt: P,
    pub right_pt: P,
    /// Origin vertex index in the input polygon, if the chord emanates from a vertex.
    pub origin_vertex: Option<usize>,
    /// Polygon edge (i, (i+1)%n) that was hit by the horizontal ray.
    pub hit_edge: usize,
    pub hit_pt: P,
    /// Adjacent regions in the submap tree.
    pub region1: usize,
    pub region2: usize,
}

/// The chord that a horizontal ray from vertex `v` (at point `p`, height
/// `y`) in direction `dir` traces to the point `hit_pt` of edge `hit_edge`:
/// it runs left to right, from the vertex to the hit point when the ray goes
/// right and the other way when it goes left; it is not yet numbered nor
/// placed between regions.
pub fn chord_from_hit<P: Copy, S: Copy>(
    v: usize,
    dir: ChordDirection,
    p: P,
    y: S,
    hit_pt: P,
    hit_edge: usize,
) -> (c: Chord<P, S>)
    ensures
        c.id == 0,
        c.y == y,
        c.origin_vertex == Some(v),
        c.hit_edge == hit_edge,
        c.hit_pt == hit_pt,
        c.region1 == 0,
        c.region2 == 0,
        dir == ChordDirection::Right ==> c.left_pt == p && c.right_pt == hit_pt,
        dir == ChordDirection::Left ==> c.left_pt == hit_pt && c.right_pt == p,
{
    let (left_pt, right_pt) = if dir.is_right() {
        (p, hit_pt)
    } else {
        (hit_pt, p)
    };
    Chord { id: 0, y, left_pt, right_pt, origin_vertex: Some(v), hit_edge, hit_pt, region1: 0, region2: 0 }
}

/// A contiguous sequence of polygon boundary edges between two chord endpoints.
#[derive(Debug, Clone, Copy, PartialEq)]
pub struct SubmapArc<P> {
    pub start_edge: usize,
    pub end_edge: usize,
    pub start_pt: P,
    pub end_pt: P,
    pub num_edges: usize,
}

/// A region of a visibility submap (dual to a node of the submap tree). In a
/// conformal submap each region has at most 4 chords and 4 arcs.
#[derive(Debug, Clone)]
pub struct SubmapRegion<P> {
    pub id: usize,
    pub arcs: Vec<SubmapArc<P>>,
    pub chords: Vec<usize>,
    pub weight: usize,
}

impl<P> SubmapRegion<P> {
    pub fn new(id: usize) -> (r: Self)
        ensures
            r.id == id,
            r.arcs@.len() == 0,
            r.chords@.len() == 0,
            r.weight == 0,
    {
        Self { id, arcs: Vec::new(), chords: Vec::new(), weight: 0 }
    }

    /// A region is conformal when it has at most four chords and four arcs.
    pub open spec fn conformal(&self) -> bool {
        self.chords@.len() <= 4 && self.arcs@.len() <= 4
    }

    pub fn is_conformal(&self) -> (b: bool)
        ensures
            b == self.conformal(),
    {
        self.chords.len() <= 4 && self.arcs.len() <= 4
    }
}

/// Centroid tree decomposition of a conformal submap tree (Section 2.3):
/// allows O(log m) navigation and binary search over the submap.
#[derive(Debug)]
pub enum CentroidTreeNode {
    Internal { chord_id: usize, left_child: Box<CentroidTreeNode>, right_child: Box<CentroidTreeNode> },
    Leaf { region_id: usize },
}

/// A visibility submap given in normal form (Section 2.4).
#[derive(Debug, Clone)]
pub struct Submap<P, S> {
    pub regions: Vec<SubmapRegion<P>>,
    pub chords: Vec<Chord<P, S>>,
    pub granularity: usize,
}

impl<P, S> Submap<P, S> {
    pub fn new(granularity: usize) -> (s: Self)
        ensures
            s.regions@.len() == 0,
            s.chords@.len() == 0,
            s.granularity == granularity,
    {
        Self { regions: Vec::new(), chords: Vec::new(), granularity }
    }

    pub fn num_regions(&self) -> (k: usize)
        ensures
            k == self.regions@.len(),
    {
        self.regions.len()
    }

    pub fn num_chords(&self) -> (k: usize)
        ensures
            k == self.chords@.len(),
    {
        self.chords.len()
    }
}

/// `cid` is the identifier of one of the chords.
pub open spec fn is_chord_id<P, S>(cid: usize, chords: Seq<Chord<P, S>>) -> bool {
    exists|j: int| 0 <= j < chords.len() && chords[j].id == cid
}

/// Every leaf of `t` is a region listed in `regions`, and every internal node
/// holds the identifier of one of the chords.
pub open spec fn tree_drawn_from<P, S>(
    t: CentroidTreeNode,
    regions: Seq<usize>,
    chords: Seq<Chord<P, S>>,
) -> bool
    decreases t,
{
    match t {
        CentroidTreeNode::Leaf { region_id } => regions.contains(region_id),
        CentroidTreeNode::Internal { chord_id, left_child, right_child } => {
            &&& is_chord_id(chord_id, chords)
            &&& tree_drawn_from(*left_child, regions, chords)
            &&& tree_drawn_from(*right_child, regions, chords)
        },
    }
}

/// One of the chords has identifier `cid` and joins regions `a` and `b`.
pub open spec fn chord_joins<P, S>(cid: usize, a: usize, b: usize, chords: Seq<Chord<P, S>>) -> bool {
    exists|j: int|
        0 <= j < chords.len() && #[trigger] chords[j].id == cid && ((chords[j].region1 == a
            && chords[j].region2 == b) || (chords[j].region1 == b && chords[j].region2 == a))
}

/// The region adjacency lists: each entry names a region and the chord
/// separating it from the region whose list holds the entry.
pub open spec fn adjacency_ok<P, S>(adj: Seq<Vec<(usize, usize)>>, chords: Seq<Chord<P, S>>) -> bool {
    forall|u: int, k: int|
        0 <= u < adj.len() && 0 <= k < adj[u]@.len() ==> (#[trigger] adj[u]@[k]).0 < adj.len()
            && is_chord_id(adj[u]@[k].1, chords) && chord_joins(adj[u]@[k].1, u as usize, adj[u]@[k].0, chords)
}

/// The list of region `a` names region `b`.
pub open spec fn lists_pair(adj: Seq<Vec<(usize, usize)>>, a: usize, b: usize) -> bool {
    exists|k: int| 0 <= k < adj[a as int]@.len() && (#[trigger] adj[a as int]@[k]).0 == b
}

/// Appending entries to the lists keeps every pair they named.
proof fn lemma_lists_kept(a0: Seq<Vec<(usize, usize)>>, a1: Seq<Vec<(usize, usize)>>)
    requires
        a1.len() == a0.len(),
        forall|x: int| 0 <= x < a0.len() ==> a0[x]@.len() <= #[trigger] a1[x]@.len(),
        forall|x: int, y: int| 0 <= x < a0.len() && 0 <= y < a0[x]@.len() ==> #[trigger] a1[x]@[y] == a0[x]@[y],
    ensures
        forall|a: usize, b: usize| (a as int) < a0.len() && #[trigger] lists_pair(a0, a, b) ==> lists_pair(a1, a, b),
{
    assert forall|a: usize, b: usize| (a as int) < a0.len() && #[trigger] lists_pair(a0, a, b) implies lists_pair(a1, a, b) by {
        let k = choose|k: int| 0 <= k < a0[a as int]@.len() && (#[trigger] a0[a as int]@[k]).0 == b;
        assert(a1[a as int]@[k] == a0[a as int]@[k]);
    }
}

/// Some region of `active` lists a later region of `active` as a neighbour.
pub open spec fn has_inner_edge(adj: Seq<Vec<(usize, usize)>>, active: Seq<usize>) -> bool {
    exists|u: usize, k: int|
        active.contains(u) && (u as int) < adj.len() && 0 <= k < adj[u as int]@.len() && active.contains(
            (#[trigger] adj[u as int]@[k]).0,
        ) && u < adj[u as int]@[k].0
}

/// None of the first `upto` neighbours of `u` is a later marked region.
pub open spec fn no_forward_edge(adj: Seq<Vec<(usize, usize)>>, marks: Seq<bool>, u: usize, upto: int) -> bool {
    forall|k: int|
        0 <= k < upto ==> !(u < (#[trigger] adj[u as int]@[k]).0 && marks[adj[u as int]@[k].0 as int])
}

/// The regions at the leaves of `t`, from left to right.
pub open spec fn tree_leaves(t: CentroidTreeNode) -> Seq<usize>
    decreases t,
{
    match t {
        CentroidTreeNode::Leaf { region_id } => seq![region_id],
        CentroidTreeNode::Internal { chord_id, left_child, right_child } => tree_leaves(*left_child)
            + tree_leaves(*right_child),
    }
}

/// One of the chords has identifier `cid` and joins two distinct regions.
pub open spec fn joins_two_regions<P, S>(cid: usize, chords: Seq<Chord<P, S>>) -> bool {
    exists|a: usize, b: usize| a != b && #[trigger] chord_joins(cid, a, b, chords)
}

/// Every internal node of `t` holds a chord joining two distinct regions.
pub open spec fn chords_split_tree<P, S>(t: CentroidTreeNode, chords: Seq<Chord<P, S>>) -> bool
    decreases t,
{
    match t {
        CentroidTreeNode::Leaf { region_id } => true,
        CentroidTreeNode::Internal { chord_id, left_child, right_child } => {
            &&& joins_two_regions(chord_id, chords)
            &&& chords_split_tree(*left_child, chords)
            &&& chords_split_tree(*right_child, chords)
        },
    }
}

/// With one end of a chord between two regions of `within` in `s`, `s`
/// holds the other end too, unless that end is `blocked`.
pub open spec fn chord_step_closed<P, S>(
    chords: Seq<Chord<P, S>>,
    within: Set<usize>,
    blocked: usize,
    s: Set<usize>,
) -> bool {
    forall|j: int|
        0 <= j < chords.len() && within.contains((#[trigger] chords[j]).region1) && within.contains(chords[j].region2)
            ==> {
            &&& s.contains(chords[j].region1) && chords[j].region2 != blocked ==> s.contains(chords[j].region2)
            &&& s.contains(chords[j].region2) && chords[j].region1 != blocked ==> s.contains(chords[j].region1)
        }
}

/// The regions reached from `start` across chords between regions of
/// `within` without entering `blocked`.
pub open spec fn chord_side<P, S>(
    chords: Seq<Chord<P, S>>,
    within: Set<usize>,
    blocked: usize,
    start: usize,
) -> Set<usize> {
    Set::new(
        |x: usize|
            forall|s: Set<usize>|
                #[trigger] chord_step_closed(chords, within, blocked, s) && s.contains(start) ==> s.contains(x),
    )
}

/// How unevenly cutting between regions `lo` and `hi` splits the regions of
/// `within`: those reached from `hi` without entering `lo`, against the others.
pub open spec fn chord_gap<P, S>(chords: Seq<Chord<P, S>>, within: Set<usize>, lo: usize, hi: usize) -> int {
    let c = chord_side(chords, within, lo, hi).len() as int;
    let m = within.len() as int;
    if c >= m - c {
        c - (m - c)
    } else {
        (m - c) - c
    }
}

/// The lesser and the greater of the two regions of a chord.
pub open spec fn low_region<P, S>(c: Chord<P, S>) -> usize {
    if c.region1 < c.region2 {
        c.region1
    } else {
        c.region2
    }
}

pub open spec fn high_region<P, S>(c: Chord<P, S>) -> usize {
    if c.region1 < c.region2 {
        c.region2
    } else {
        c.region1
    }
}

/// Chord `cid` joins regions `u < v` of `within`, and no chord between two
/// distinct regions of `within` splits them more evenly.
pub open spec fn evenest_chord<P, S>(
    chords: Seq<Chord<P, S>>,
    within: Set<usize>,
    cid: usize,
    u: usize,
    v: usize,
) -> bool {
    &&& u < v
    &&& within.contains(u)
    &&& within.contains(v)
    &&& chord_joins(cid, u, v, chords)
    &&& forall|j: int|
        0 <= j < chords.len() && within.contains((#[trigger] chords[j]).region1) && within.contains(chords[j].region2)
            && chords[j].region1 != chords[j].region2 ==> chord_gap(chords, within, u, v) <= chord_gap(
            chords,
            within,
            low_region(chords[j]),
            high_region(chords[j]),
        )
}

/// Every internal node of `t` holds a chord that splits the regions at the
/// leaves below it as evenly as any chord between two of them does.
pub open spec fn evenly_split<P, S>(t: CentroidTreeNode, chords: Seq<Chord<P, S>>) -> bool
    decreases t,
{
    match t {
        CentroidTreeNode::Leaf { region_id } => true,
        CentroidTreeNode::Internal { chord_id, left_child, right_child } => {
            &&& exists|u: usize, v: usize|
                #[trigger] evenest_chord(chords, (tree_leaves(*left_child) + tree_leaves(*right_child)).to_set(), chord_id, u, v)
            &&& evenly_split(*left_child, chords)
            &&& evenly_split(*right_child, chords)
        },
    }
}

/// Each chord between two of the regions is listed by both.
pub open spec fn lists_all_chords<P, S>(adj: Seq<Vec<(usize, usize)>>, chords: Seq<Chord<P, S>>) -> bool {
    forall|j: int|
        0 <= j < chords.len() && (chords[j].region1 as int) < adj.len() && (chords[j].region2 as int) < adj.len()
            ==> lists_pair(adj, (#[trigger] chords[j]).region1, chords[j].region2) && lists_pair(
            adj,
            chords[j].region2,
            chords[j].region1,
        )
}

/// Over the adjacency lists, with the regions of `within` marked, the gap of
/// a cut is the one measured across the chords.
proof fn lemma_gap_agrees<P, S>(
    adj: Seq<Vec<(usize, usize)>>,
    marks: Seq<bool>,
    within: Set<usize>,
    chords: Seq<Chord<P, S>>,
    a: usize,
    b: usize,
)
    requires
        adjacency_ok(adj, chords),
        lists_all_chords(adj, chords),
        marks.len() == adj.len(),
        forall|w: int| 0 <= w < marks.len() ==> #[trigger] marks[w] == within.contains(w as usize),
        forall|x: usize| #[trigger] within.contains(x) ==> (x as int) < adj.len(),
        within.contains(b),
    ensures
        split_gap(adj, marks, a, b, within.len() as int) == chord_gap(chords, within, a, b),
{
    // A set closed along the lists is closed across the chords.
    assert forall|st: Set<usize>| #[trigger] step_closed(adj, marks, a, st) implies chord_step_closed(chords, within, a, st) by {
        assert forall|j: int|
            0 <= j < chords.len() && within.contains((#[trigger] chords[j]).region1) && within.contains(chords[j].region2)
                implies {
            &&& st.contains(chords[j].region1) && chords[j].region2 != a ==> st.contains(chords[j].region2)
            &&& st.contains(chords[j].region2) && chords[j].region1 != a ==> st.contains(chords[j].region1)
        } by {
            let r1 = chords[j].region1;
            let r2 = chords[j].region2;
            assert(lists_pair(adj, r1, r2));
            assert(lists_pair(adj, r2, r1));
            let k1 = choose|k: int| 0 <= k < adj[r1 as int]@.len() && (#[trigger] adj[r1 as int]@[k]).0 == r2;
            let k2 = choose|k: int| 0 <= k < adj[r2 as int]@.len() && (#[trigger] adj[r2 as int]@[k]).0 == r1;
            assert(marks[r1 as int]);
            assert(marks[r2 as int]);
            if st.contains(r1) && r2 != a {
                assert(enterable(marks, a, adj[r1 as int]@[k1].0));
            }
            if st.contains(r2) && r1 != a {
                assert(enterable(marks, a, adj[r2 as int]@[k2].0));
            }
        }
    }
    // A set closed across the chords, cut down to `within`, is closed along the lists.
    assert forall|st: Set<usize>| #[trigger] chord_step_closed(chords, within, a, st) implies step_closed(
        adj,
        marks,
        a,
        st.intersect(within),
    ) by {
        let si = st.intersect(within);
        assert forall|u: usize, k: int|
            #![trigger si.contains(u), adj[u as int]@[k]]
            si.contains(u) && (u as int) < adj.len() && 0 <= k < adj[u as int]@.len() && enterable(
                marks,
                a,
                adj[u as int]@[k].0,
            ) implies si.contains(adj[u as int]@[k].0) by {
            let w = adj[u as int]@[k].0;
            assert(chord_joins(adj[u as int]@[k].1, u, w, chords));
            let j = choose|j: int|
                0 <= j < chords.len() && #[trigger] chords[j].id == adj[u as int]@[k].1 && ((chords[j].region1 == u
                    && chords[j].region2 == w) || (chords[j].region1 == w && chords[j].region2 == u));
            assert(marks[w as int]);
            assert(within.contains(w));
        }
    }
    assert(component(adj, marks, a, b) =~= chord_side(chords, within, a, b)) by {
        assert forall|x: usize| component(adj, marks, a, b).contains(x) <==> chord_side(chords, within, a, b).contains(x) by {
            if in_component(adj, marks, a, b, x) {
                assert forall|st: Set<usize>| #[trigger] chord_step_closed(chords, within, a, st) && st.contains(b) implies st.contains(x) by {
                    assert(step_closed(adj, marks, a, st.intersect(within)));
                    assert(st.intersect(within).contains(b));
                }
            }
            if chord_side(chords, within, a, b).contains(x) {
                assert forall|st: Set<usize>| #[trigger] step_closed(adj, marks, a, st) && st.contains(b) implies st.contains(x) by {
                    assert(chord_step_closed(chords, within, a, st));
                }
            }
        }
    }
}

/// How unevenly cutting between `u` and `v` splits `total` regions: those
/// reached from `v` without passing `u`, against the others.
pub open spec fn split_gap(adj: Seq<Vec<(usize, usize)>>, marks: Seq<bool>, u: usize, v: usize, total: int) -> int {
    let c = component(adj, marks, u, v).len() as int;
    if c >= total - c {
        c - (total - c)
    } else {
        (total - c) - c
    }
}

/// No entry among the first `upto` of the list of `u` that names a later
/// marked region splits more evenly than `gap`.
pub open spec fn none_better(
    adj: Seq<Vec<(usize, usize)>>,
    marks: Seq<bool>,
    u: usize,
    upto: int,
    gap: int,
    total: int,
) -> bool {
    forall|k: int|
        0 <= k < upto && k < adj[u as int]@.len() && u < (#[trigger] adj[u as int]@[k]).0
            && marks[adj[u as int]@[k].0 as int] ==> gap <= split_gap(adj, marks, u, adj[u as int]@[k].0, total)
}

/// The chord `cid` joins regions `u < v` of `active`, and no chord between
/// two regions of `active` splits them more evenly.
pub open spec fn best_split<P, S>(
    adj: Seq<Vec<(usize, usize)>>,
    active: Seq<usize>,
    chords: Seq<Chord<P, S>>,
    cid: usize,
    u: usize,
    v: usize,
) -> bool {
    let m = seq_marks(active, adj.len() as int);
    &&& u < v
    &&& chord_joins(cid, u, v, chords)
    &&& active.contains(u)
    &&& active.contains(v)
    &&& forall|u2: usize|
        #[trigger] active.contains(u2) && (u2 as int) < adj.len() ==> none_better(
            adj,
            m,
            u2,
            adj[u2 as int]@.len() as int,
            split_gap(adj, m, u, v, active.len() as int),
            active.len() as int,
        )
}

proof fn lemma_none_better_lower(
    adj: Seq<Vec<(usize, usize)>>,
    marks: Seq<bool>,
    u: usize,
    upto: int,
    g1: int,
    g2: int,
    total: int,
)
    requires
        none_better(adj, marks, u, upto, g1, total),
        g2 <= g1,
    ensures
        none_better(adj, marks, u, upto, g2, total),
{
}

/// The regions below `n`, each marked by whether it is in `s`.
pub open spec fn set_marks(s: Set<usize>, n: int) -> Seq<bool> {
    Seq::new(n as nat, |i: int| s.contains(i as usize))
}

/// The marks of the regions of `active`.
pub open spec fn marks_of(marks: Seq<bool>, active: Seq<usize>) -> bool {
    forall|x: int| 0 <= x < marks.len() ==> #[trigger] marks[x] == active.contains(x as usize)
}

/// The set of the first `n` indices.
pub open spec fn index_set(n: int) -> Set<usize> {
    Set::new(|x: usize| (x as int) < n)
}

proof fn lemma_index_set(n: int)
    requires
        0 <= n <= usize::MAX + 1,
    ensures
        index_set(n).finite(),
        index_set(n).len() == n,
    decreases n,
{
    if n == 0 {
        assert(index_set(0) =~= Set::empty());
    } else {
        lemma_index_set(n - 1);
        assert(index_set(n - 1).insert((n - 1) as usize) =~= index_set(n));
    }
}

/// A sequence of distinct indices below `n` has at most `n` entries, and no
/// more than a duplicate-free `t` whose entries include all of its own.
proof fn lemma_distinct_within(s: Seq<usize>, t: Seq<usize>)
    requires
        s.no_duplicates(),
        t.no_duplicates(),
        forall|x: usize| s.contains(x) ==> t.contains(x),
    ensures
        s.len() <= t.len(),
{
    s.unique_seq_to_set();
    t.unique_seq_to_set();
    assert(s.to_set().subset_of(t.to_set()));
    vstd::set_lib::lemma_len_subset(s.to_set(), t.to_set());
}

proof fn lemma_distinct_below(s: Seq<usize>, n: int)
    requires
        s.no_duplicates(),
        0 <= n <= usize::MAX + 1,
        forall|i: int| 0 <= i < s.len() ==> (#[trigger] s[i] as int) < n,
    ensures
        s.len() <= n,
{
    s.unique_seq_to_set();
    lemma_index_set(n);
    assert(s.to_set().subset_of(index_set(n)));
    vstd::set_lib::lemma_len_subset(s.to_set(), index_set(n));
}

/// Region `w` may be entered from a neighbour: it is marked and is not `blocked`.
pub open spec fn enterable(active: Seq<bool>, blocked: usize, w: usize) -> bool {
    w != blocked && (w as int) < active.len() && active[w as int]
}

/// Every enterable neighbour of a region of `s` is in `s`.
pub open spec fn step_closed(
    adj: Seq<Vec<(usize, usize)>>,
    active: Seq<bool>,
    blocked: usize,
    s: Set<usize>,
) -> bool {
    forall|u: usize, k: int|
        #![trigger s.contains(u), adj[u as int]@[k]]
        s.contains(u) && (u as int) < adj.len() && 0 <= k < adj[u as int]@.len() && enterable(
            active,
            blocked,
            adj[u as int]@[k].0,
        ) ==> s.contains(adj[u as int]@[k].0)
}

/// `x` lies in every set that holds `start` and is closed under entering
/// neighbours: it is reached from `start` through enterable regions.
pub open spec fn in_component(
    adj: Seq<Vec<(usize, usize)>>,
    active: Seq<bool>,
    blocked: usize,
    start: usize,
    x: usize,
) -> bool {
    forall|s: Set<usize>| #[trigger] step_closed(adj, active, blocked, s) && s.contains(start) ==> s.contains(x)
}

/// The regions reached from `start` through enterable regions.
pub open spec fn component(
    adj: Seq<Vec<(usize, usize)>>,
    active: Seq<bool>,
    blocked: usize,
    start: usize,
) -> Set<usize> {
    Set::new(|x: usize| in_component(adj, active, blocked, start, x))
}

/// The first `upto` neighbours of `u` that can be entered are marked in `visited`.
pub open spec fn expanded(
    adj: Seq<Vec<(usize, usize)>>,
    active: Seq<bool>,
    blocked: usize,
    visited: Seq<bool>,
    u: usize,
    upto: int,
) -> bool {
    forall|k: int|
        #![trigger adj[u as int]@[k]]
        0 <= k < upto && k < adj[u as int]@.len() && enterable(active, blocked, adj[u as int]@[k].0) ==> visited[adj[u as int]@[k].0 as int]
}

proof fn lemma_expanded_more(
    adj: Seq<Vec<(usize, usize)>>,
    active: Seq<bool>,
    blocked: usize,
    v1: Seq<bool>,
    v2: Seq<bool>,
    u: usize,
    upto: int,
)
    requires
        expanded(adj, active, blocked, v1, u, upto),
        v1.len() == v2.len(),
        forall|x: int| 0 <= x < v1.len() && #[trigger] v1[x] ==> v2[x],
        (u as int) < adj.len(),
        forall|k: int| 0 <= k < adj[u as int]@.len() ==> (#[trigger] adj[u as int]@[k]).0 < v1.len(),
    ensures
        expanded(adj, active, blocked, v2, u, upto),
{
    assert forall|k: int|
        #![trigger adj[u as int]@[k]]
        0 <= k < upto && k < adj[u as int]@.len() && enterable(active, blocked, adj[u as int]@[k].0) implies v2[adj[u as int]@[k].0 as int] by {
        assert(v1[adj[u as int]@[k].0 as int]);
    }
}

impl<P: Copy, S: Copy> Submap<P, S> {
    /// Builds the centroid tree decomposition of the submap (Section 2.3):
    /// regions are nodes, chords joining two of them are edges.
    #[verifier::rlimit(40)]
    pub fn build_centroid_tree(&self) -> (t: Option<CentroidTreeNode>)
        ensures
            self.regions@.len() == 0 <==> t is None,
            self.regions@.len() == 1 ==> t matches Some(CentroidTreeNode::Leaf { region_id: 0 }),
            t matches Some(node) ==> tree_drawn_from(
                node,
                Seq::new(self.regions@.len(), |i: int| i as usize),
                self.chords@,
            ),
            t matches Some(node) ==> tree_leaves(node).no_duplicates() && chords_split_tree(node, self.chords@)
                && forall|x: usize| #[trigger] tree_leaves(node).contains(x) ==> (x as int) < self.regions@.len(),
            t matches Some(node) ==> (regions_joined(self.chords@, self.regions@.len() as int) ==> forall|x: usize|
                (x as int) < self.regions@.len() ==> #[trigger] tree_leaves(node).contains(x)),
            t matches Some(CentroidTreeNode::Internal { chord_id, .. }) ==> exists|u: usize, v: usize|
                #[trigger] evenest_chord(self.chords@, index_set(self.regions@.len() as int), chord_id, u, v),
            t matches Some(node) ==> (regions_joined(self.chords@, self.regions@.len() as int) ==> evenly_split(
                node,
                self.chords@,
            )),
            (exists|j: int|
                0 <= j < self.chords@.len() && (#[trigger] self.chords@[j]).region1 != self.chords@[j].region2
                    && (self.chords@[j].region1 as int) < self.regions@.len() && (self.chords@[j].region2 as int)
                    < self.regions@.len()) ==> t matches Some(CentroidTreeNode::Internal { .. }),
    {
        if self.regions.len() == 0 {
            return None;
        }
        if self.regions.len() == 1 {
            proof {
                let all = Seq::new(self.regions@.len(), |i: int| i as usize);
                assert(all[0] == 0);
                assert(all.contains(0));
                assert(tree_leaves(CentroidTreeNode::Leaf { region_id: 0 })[0] == 0usize);
            }
            return Some(CentroidTreeNode::Leaf { region_id: 0 });
        }
        // Tree of regions: adjacency via chords.

        let num_r = self.regions.len();
        let adj = Self::region_adjacency(num_r, &self.chords);
        let active = crate::monotone::identity_order(num_r);
        proof {
            assert(active@.no_duplicates());
            assert forall|j: int| 0 <= j < active@.len() implies (#[trigger] active@[j]) < adj@.len() by {
                assert(active@[j] == j);
            }
            assert(active@ =~= Seq::new(self.regions@.len(), |i: int| i as usize));
            lemma_chord_inner_edge(adj@, active@, self.chords@);
        }
        proof {
            if regions_joined(self.chords@, num_r as int) {
                Self::lemma_joined_linked(adj@, active@, self.chords@);
            }
        }
        let t = Self::decompose_subtree(&adj, active.as_slice(), &self.chords);
        proof {
            if regions_joined(self.chords@, num_r as int) {
                assert forall|x: usize| (x as int) < num_r implies #[trigger] tree_leaves(t).contains(x) by {
                    assert(active@[x as int] == x);
                    assert(active@.contains(x));
                }
            }
            if let CentroidTreeNode::Internal { chord_id, .. } = t {
                lemma_root_evenest(adj@, active@, self.chords@, chord_id);
            }
        }
        Some(t)
    }

    /// When the chords join all regions, the adjacency lists link them all.
    proof fn lemma_joined_linked(adj: Seq<Vec<(usize, usize)>>, active: Seq<usize>, chords: Seq<Chord<P, S>>)
        requires
            2 <= adj.len() <= usize::MAX,
            active =~= Seq::new(adj.len(), |i: int| i as usize),
            entries_in_range(adj),
            adjacency_symmetric(adj),
            regions_joined(chords, adj.len() as int),
            forall|j: int|
                0 <= j < chords.len() && (chords[j].region1 as int) < adj.len() && (chords[j].region2 as int)
                    < adj.len() ==> lists_pair(adj, (#[trigger] chords[j]).region1, chords[j].region2)
                    && lists_pair(adj, chords[j].region2, chords[j].region1),
        ensures
            linked(adj, active),
    {
        let n = adj.len() as int;
        let nb = adj.len() as usize;
        let m = seq_marks(active, n);
        assert forall|x: usize| (x as int) < n implies #[trigger] active.contains(x) by {
            assert(active[x as int] == x);
        }
        let s = Set::new(|z: usize| in_component(adj, m, nb, 0, z));
        assert forall|j: int|
            0 <= j < chords.len() && ((#[trigger] chords[j]).region1 as int) < n && (chords[j].region2 as int) < n
                implies (s.contains(chords[j].region1) <==> s.contains(chords[j].region2)) by {
            let a = chords[j].region1;
            let b = chords[j].region2;
            assert(lists_pair(adj, a, b));
            assert(lists_pair(adj, b, a));
            let ka = choose|k: int| 0 <= k < adj[a as int]@.len() && (#[trigger] adj[a as int]@[k]).0 == b;
            let kb = choose|k: int| 0 <= k < adj[b as int]@.len() && (#[trigger] adj[b as int]@[k]).0 == a;
            assert(active.contains(a));
            assert(active.contains(b));
            lemma_reach_step(adj, m, nb, a, ka);
            lemma_reach_step(adj, m, nb, b, kb);
            if s.contains(a) {
                lemma_reach_trans(adj, m, nb, 0, a, b);
            }
            if s.contains(b) {
                lemma_reach_trans(adj, m, nb, 0, b, a);
            }
        }
        assert(chord_closed(chords, n, s));
        lemma_reach_refl(adj, m, nb, 0);
        assert(s.contains(0));
        assert forall|x: usize, y: usize| active.contains(x) && active.contains(y) implies #[trigger] in_component(
            adj,
            seq_marks(active, adj.len() as int),
            adj.len() as usize,
            x,
            y,
        ) by {
            assert(s.contains(x));
            assert(s.contains(y));
            assert(active.contains(0usize));
            assert(enterable(m, nb, 0));
            lemma_reach_back(adj, m, nb, 0, x);
            lemma_reach_trans(adj, m, nb, x, 0, y);
        }
    }

    /// The region adjacency lists of `num_r` regions: for each chord joining
    /// two of them, each lists the other with the chord.
    fn region_adjacency(num_r: usize, chords: &Vec<Chord<P, S>>) -> (adj: Vec<Vec<(usize, usize)>>)
        ensures
            adj@.len() == num_r,
            adjacency_ok(adj@, chords@),
            forall|j: int|
                0 <= j < chords@.len() && (chords@[j].region1 as int) < num_r && (chords@[j].region2 as int)
                    < num_r ==> lists_pair(adj@, (#[trigger] chords@[j]).region1, chords@[j].region2)
                    && lists_pair(adj@, chords@[j].region2, chords@[j].region1),
    {
        let mut adj: Vec<Vec<(usize, usize)>> = Vec::new();
        let mut i: usize = 0;
        while i < num_r
            invariant
                i <= num_r,
                adj@.len() == i,
                forall|u: int| 0 <= u < i ==> (#[trigger] adj@[u])@.len() == 0,
            decreases num_r - i,
        {
            adj.push(Vec::new());
            i += 1;
        }
        let mut k: usize = 0;
        while k < chords.len()
            invariant
                k <= chords@.len(),
                adj@.len() == num_r,
                adjacency_ok(adj@, chords@),
                forall|j: int|
                    0 <= j < k && (chords@[j].region1 as int) < num_r && (chords@[j].region2 as int) < num_r
                        ==> lists_pair(adj@, (#[trigger] chords@[j]).region1, chords@[j].region2) && lists_pair(
                        adj@,
                        chords@[j].region2,
                        chords@[j].region1,
                    ),
            decreases chords@.len() - k,
        {
            let chord = chords[k];
            if chord.region1 < num_r && chord.region2 < num_r {
                proof {
                    assert(chords@[k as int].id == chord.id);
                    assert(is_chord_id(chord.id, chords@));
                }
                let ghost a0 = adj@;
                adj[chord.region1].push((chord.region2, chord.id));
                proof {
                    assert forall|u: int, j: int|
                        0 <= u < adj@.len() && 0 <= j < adj@[u]@.len() implies (#[trigger] adj@[u]@[j]).0
                        < adj@.len() && is_chord_id(adj@[u]@[j].1, chords@) && chord_joins(adj@[u]@[j].1, u as usize, adj@[u]@[j].0, chords@) by {
                        if u != chord.region1 as int || j < a0[u]@.len() {
                            assert(adj@[u]@[j] == a0[u]@[j]);
                        } else {
                            assert(chords@[k as int].id == adj@[u]@[j].1);
                        }
                    }
                    assert forall|x: int| 0 <= x < a0.len() implies a0[x]@.len() <= #[trigger] adj@[x]@.len() by {}
                    assert forall|x: int, y: int| 0 <= x < a0.len() && 0 <= y < a0[x]@.len() implies #[trigger] adj@[x]@[y]
                        == a0[x]@[y] by {}
                    lemma_lists_kept(a0, adj@);
                }
                let ghost a1 = adj@;
                adj[chord.region2].push((chord.region1, chord.id));
                proof {
                    assert forall|u: int, j: int|
                        0 <= u < adj@.len() && 0 <= j < adj@[u]@.len() implies (#[trigger] adj@[u]@[j]).0
                        < adj@.len() && is_chord_id(adj@[u]@[j].1, chords@) && chord_joins(adj@[u]@[j].1, u as usize, adj@[u]@[j].0, chords@) by {
                        if u != chord.region2 as int || j < a1[u]@.len() {
                            assert(adj@[u]@[j] == a1[u]@[j]);
                        } else {
                            assert(chords@[k as int].id == adj@[u]@[j].1);
                        }
                    }
                    assert forall|x: int| 0 <= x < a1.len() implies a1[x]@.len() <= #[trigger] adj@[x]@.len() by {}
                    assert forall|x: int, y: int| 0 <= x < a1.len() && 0 <= y < a1[x]@.len() implies #[trigger] adj@[x]@[y]
                        == a1[x]@[y] by {}
                    lemma_lists_kept(a1, adj@);
                    let r1 = chord.region1 as int;
                    let r2 = chord.region2 as int;
                    assert(a1[r1]@[a0[r1]@.len() as int] == (chord.region2, chord.id));
                    assert(lists_pair(a1, chord.region1, chord.region2));
                    assert(adj@[r2]@[a1[r2]@.len() as int] == (chord.region1, chord.id));
                    assert(lists_pair(adj@, chord.region2, chord.region1));
                    assert forall|j: int|
                        0 <= j < k + 1 && (chords@[j].region1 as int) < num_r && (chords@[j].region2 as int) < num_r
                            implies lists_pair(adj@, (#[trigger] chords@[j]).region1, chords@[j].region2) && lists_pair(
                        adj@,
                        chords@[j].region2,
                        chords@[j].region1,
                    ) by {
                        if j == k {
                            assert(chords@[j] == chord);
                        }
                    }
                }
            }
            k += 1;
        }
        adj
    }

    /// Decomposes the subtree induced by the regions `active`: the chord whose
    /// removal splits it most evenly becomes the root; its left side is the
    /// component of its first region once the chord is cut, its right side
    /// the other regions of `active`, and both are decomposed in turn. With no
    /// chord between two regions of `active`, the first region is a leaf.
    fn decompose_subtree(
        adj: &Vec<Vec<(usize, usize)>>,
        active: &[usize],
        chords: &Vec<Chord<P, S>>,
    ) -> (t: CentroidTreeNode)
        requires
            0 < adj@.len() <= usize::MAX,
            adjacency_ok(adj@, chords@),
            adjacency_symmetric(adj@),
            lists_all_chords(adj@, chords@),
            active@.no_duplicates(),
            forall|j: int| 0 <= j < active@.len() ==> (#[trigger] active@[j]) < adj@.len(),
        ensures
            active@.len() == 0 ==> t == (CentroidTreeNode::Leaf { region_id: 0 }),
            active@.len() > 0 ==> tree_drawn_from(t, active@, chords@),
            active@.len() > 0 ==> tree_leaves(t).no_duplicates(),
            active@.len() > 0 ==> forall|x: usize| #[trigger] tree_leaves(t).contains(x) ==> active@.contains(x),
            chords_split_tree(t, chords@),
            active@.len() >= 2 && has_inner_edge(adj@, active@) ==> t is Internal,
            linked(adj@, active@) ==> forall|x: usize| #[trigger] active@.contains(x) ==> tree_leaves(t).contains(x),
            t matches CentroidTreeNode::Internal { chord_id, .. } ==> exists|u: usize, v: usize|
                #[trigger] best_split(adj@, active@, chords@, chord_id, u, v),
            linked(adj@, active@) ==> evenly_split(t, chords@),
        decreases active@.len(),
    {
        if active.len() <= 1 {
            if active.len() == 0 {
                return CentroidTreeNode::Leaf { region_id: 0 };
            }
            proof {
                assert(active@.contains(active@[0]));
                assert forall|x: usize| #[trigger] active@.contains(x) implies seq![active@[0]].contains(x) by {
                    let w = choose|w: int| 0 <= w < active@.len() && active@[w] == x;
                    assert(w == 0);
                    assert(seq![active@[0]][0] == x);
                }
            }
            return CentroidTreeNode::Leaf { region_id: active[0] };
        }
        // Subtree size from active nodes.

        let active_set = Self::region_set(active);
        let ghost am = set_marks(active_set@, adj@.len() as int);
        let total_size = active.len();
        // Find the chord whose removal splits the subtree most evenly.
        let mut best_edge: Option<(usize, usize, usize)> = None;
        let mut best_balance = usize::MAX;
        let mut ui: usize = 0;
        while ui < active.len()
            invariant
                ui <= active@.len() == total_size,
                am.len() == adj@.len(),
                am == set_marks(active_set@, adj@.len() as int),
                marks_of(am, active@),
                adjacency_ok(adj@, chords@),
                active@.no_duplicates(),
                forall|j: int| 0 <= j < active@.len() ==> (#[trigger] active@[j]) < adj@.len(),
                best_edge matches Some((u, v, c)) ==> u != v && chord_joins(c, u, v, chords@) && active@.contains(u) && active@.contains(v)
                    && u < adj@.len() && v < adj@.len() && is_chord_id(c, chords@),
                best_edge is None ==> forall|j: int|
                    0 <= j < ui ==> no_forward_edge(adj@, am, #[trigger] active@[j], adj@[active@[j] as int]@.len() as int),
                best_edge matches Some((bu, bv, bc)) ==> bu < bv && best_balance as int == split_gap(adj@, am, bu, bv, total_size as int)
                    && forall|j: int| 0 <= j < ui ==> none_better(adj@, am, #[trigger] active@[j], adj@[active@[j] as int]@.len() as int, best_balance as int, total_size as int),
            decreases active@.len() - ui,
        {
            let u = active[ui];
            let mut e: usize = 0;
            while e < adj[u].len()
                invariant
                    u == active@[ui as int],
                    ui < active@.len() == total_size,
                    u < adj@.len(),
                    e <= adj@[u as int]@.len(),
                    am.len() == adj@.len(),
                    am == set_marks(active_set@, adj@.len() as int),
                    marks_of(am, active@),
                    adjacency_ok(adj@, chords@),
                    active@.no_duplicates(),
                    forall|j: int| 0 <= j < active@.len() ==> (#[trigger] active@[j]) < adj@.len(),
                    best_edge matches Some((u2, v2, c2)) ==> u2 != v2 && chord_joins(c2, u2, v2, chords@) && active@.contains(u2) && active@.contains(v2)
                        && u2 < adj@.len() && v2 < adj@.len() && is_chord_id(c2, chords@),
                    best_edge is None ==> forall|j: int|
                        0 <= j < ui ==> no_forward_edge(adj@, am, #[trigger] active@[j], adj@[active@[j] as int]@.len() as int),
                    best_edge is None ==> no_forward_edge(adj@, am, u, e as int),
                    best_edge matches Some((bu, bv, bc)) ==> bu < bv && best_balance as int == split_gap(adj@, am, bu, bv, total_size as int)
                        && none_better(adj@, am, u, e as int, best_balance as int, total_size as int)
                        && forall|j: int| 0 <= j < ui ==> none_better(adj@, am, #[trigger] active@[j], adj@[active@[j] as int]@.len() as int, best_balance as int, total_size as int),
                decreases adj@[u as int]@.len() - e,
            {
                let (v, chord_id) = adj[u][e];
                proof {
                    assert(adj@[u as int]@[e as int] == (v, chord_id));
                }
                if u < v && active_set.contains(&v) {
                    // Size of the component holding v once the edge (u, v) is cut.
                    let comp_size = Self::count_component(v, u, adj, &active_set, Ghost(active@));
                    let other_size = total_size - comp_size;
                    let diff = if comp_size >= other_size {
                        comp_size - other_size
                    } else {
                        other_size - comp_size
                    };
                    proof {
                        assert(diff as int == split_gap(adj@, am, u, v, total_size as int));
                    }
                    if best_edge.is_none() || diff < best_balance {
                        proof {
                            assert(active@.contains(u));
                            assert(am[v as int]);
                            if best_edge is None {
                                assert forall|j: int| 0 <= j < ui implies none_better(adj@, am, #[trigger] active@[j], adj@[active@[j] as int]@.len() as int, diff as int, total_size as int) by {
                                    assert(no_forward_edge(adj@, am, active@[j], adj@[active@[j] as int]@.len() as int));
                                }
                                assert(no_forward_edge(adj@, am, u, e as int));
                            } else {
                                assert forall|j: int| 0 <= j < ui implies none_better(adj@, am, #[trigger] active@[j], adj@[active@[j] as int]@.len() as int, diff as int, total_size as int) by {
                                    lemma_none_better_lower(adj@, am, active@[j], adj@[active@[j] as int]@.len() as int, best_balance as int, diff as int, total_size as int);
                                }
                                lemma_none_better_lower(adj@, am, u, e as int, best_balance as int, diff as int, total_size as int);
                            }
                        }
                        best_balance = diff;
                        best_edge = Some((u, v, chord_id));
                    }
                }
                proof {
                    if best_edge is None {
                        assert(!(u < v && am[v as int]));
                        assert forall|k: int| 0 <= k < e + 1 implies !(u < (#[trigger] adj@[u as int]@[k]).0
                            && am[adj@[u as int]@[k].0 as int]) by {
                            if k == e {
                                assert(adj@[u as int]@[k] == (v, chord_id));
                            }
                        }
                    }
                }
                e += 1;
            }
            ui += 1;
        }
        match best_edge {
            Some((u, v, chord_id)) => {
                // The side of u once the chord is cut, and the rest.
                let comp_u = Self::get_component(u, v, adj, &active_set, Ghost(active@));
                let comp_v = Self::other_regions(active, &comp_u, adj.len());
                proof {
                    assert(am =~= seq_marks(active@, adj@.len() as int));
                    assert forall|u2: usize| #[trigger] active@.contains(u2) && (u2 as int) < adj@.len() implies none_better(
                        adj@,
                        am,
                        u2,
                        adj@[u2 as int]@.len() as int,
                        split_gap(adj@, am, u, v, active@.len() as int),
                        active@.len() as int,
                    ) by {
                        let j = choose|j: int| 0 <= j < active@.len() && active@[j] == u2;
                        assert(none_better(adj@, am, active@[j], adj@[active@[j] as int]@.len() as int, best_balance as int, total_size as int));
                    }
                    assert(best_split(adj@, active@, chords@, chord_id, u, v));
                    lemma_component_sides(adj@, am, active@, comp_u@, comp_v@, u, v);
                    if linked(adj@, active@) {
                        assert(am =~= seq_marks(active@, adj@.len() as int));
                        assert(entries_in_range(adj@));
                        lemma_side_linked(adj@, am, v, u, comp_u@);
                        lemma_rest_linked(adj@, active@, v, u, comp_u@, comp_v@);
                    }
                }
                let left = Self::decompose_subtree(adj, comp_u.as_slice(), chords);
                let right = Self::decompose_subtree(adj, comp_v.as_slice(), chords);
                proof {
                    lemma_tree_within(left, comp_u@, active@, chords@);
                    lemma_tree_within(right, comp_v@, active@, chords@);
                    let t = CentroidTreeNode::Internal {
                        chord_id,
                        left_child: Box::new(left),
                        right_child: Box::new(right),
                    };
                    let ll = tree_leaves(left);
                    let rl = tree_leaves(right);
                    assert(tree_leaves(t) == ll + rl);
                    assert(chord_joins(chord_id, u, v, chords@));
                    assert(forall|x: usize| ll.contains(x) ==> comp_u@.contains(x));
                    assert(forall|x: usize| rl.contains(x) ==> comp_v@.contains(x));
                    assert forall|a: int, b: int| 0 <= a < (ll + rl).len() && 0 <= b < (ll + rl).len() && a != b
                        implies #[trigger] (ll + rl)[a] != #[trigger] (ll + rl)[b] by {
                        if a < ll.len() && b >= ll.len() {
                            assert(ll.contains((ll + rl)[a]));
                            assert(rl.contains((ll + rl)[b]));
                        } else if a >= ll.len() && b < ll.len() {
                            assert(rl.contains((ll + rl)[a]));
                            assert(ll.contains((ll + rl)[b]));
                        }
                    }
                    if linked(adj@, active@) {
                        assert forall|x: usize| #[trigger] active@.contains(x) implies (ll + rl).contains(x) by {
                            if comp_u@.contains(x) {
                                assert(ll.contains(x));
                                let w = choose|w: int| 0 <= w < ll.len() && ll[w] == x;
                                assert((ll + rl)[w] == x);
                            } else {
                                assert(comp_v@.contains(x));
                                assert(rl.contains(x));
                                let w = choose|w: int| 0 <= w < rl.len() && rl[w] == x;
                                assert((ll + rl)[ll.len() + w] == x);
                            }
                        }
                    }
                    assert forall|x: usize| #[trigger] (ll + rl).contains(x) implies active@.contains(x) by {
                        let w = choose|w: int| 0 <= w < (ll + rl).len() && (ll + rl)[w] == x;
                        if w < ll.len() {
                            assert(ll.contains(x));
                        } else {
                            assert(rl[w - ll.len()] == x);
                            assert(rl.contains(x));
                        }
                    }
                    if linked(adj@, active@) {
                        lemma_best_is_evenest(adj@, active@, chords@, chord_id, u, v);
                        assert((ll + rl).to_set() =~= active@.to_set());
                        assert(evenest_chord(chords@, (ll + rl).to_set(), chord_id, u, v));
                    }
                }
                let t = CentroidTreeNode::Internal {
                    chord_id,
                    left_child: Box::new(left),
                    right_child: Box::new(right),
                };
                proof {
                    assert(u != v);
                    assert(chord_joins(chord_id, u, v, chords@));
                    assert(chords_split_tree(left, chords@));
                    assert(chords_split_tree(right, chords@));
                    assert(joins_two_regions(chord_id, chords@));
                    assert(chords_split_tree(t, chords@));
                    if linked(adj@, active@) {
                        assert(evenest_chord(
                            chords@,
                            (tree_leaves(left) + tree_leaves(right)).to_set(),
                            chord_id,
                            u,
                            v,
                        ));
                        assert(evenly_split(t, chords@));
                    }
                }
                t
            },
            None => {
                proof {
                    assert(active@.contains(active@[0]));
                    lemma_no_inner_edge(adj@, am, active@);
                    if linked(adj@, active@) {
                        assert(entries_in_range(adj@));
                        lemma_linked_inner_edge(adj@, active@);
                    }
                }
                CentroidTreeNode::Leaf { region_id: active[0] }
            },
        }
    }

    /// The regions of `active` not in `comp`, in order.
    fn other_regions(active: &[usize], comp: &Vec<usize>, num: usize) -> (r: Vec<usize>)
        requires
            active@.no_duplicates(),
            forall|j: int| 0 <= j < comp@.len() ==> (#[trigger] comp@[j]) < num,
            forall|j: int| 0 <= j < active@.len() ==> (#[trigger] active@[j]) < num,
        ensures
            r@.no_duplicates(),
            forall|x: usize| #[trigger] r@.contains(x) <==> (active@.contains(x) && !comp@.contains(x)),
            forall|j: int| 0 <= j < r@.len() ==> (#[trigger] r@[j]) < num,
    {
        let marks = Self::mark_regions(num, comp.as_slice());
        let mut r: Vec<usize> = Vec::new();
        let mut i: usize = 0;
        while i < active.len()
            invariant
                i <= active@.len(),
                active@.no_duplicates(),
                marks@.len() == num,
                marks_of(marks@, comp@),
                forall|j: int| 0 <= j < active@.len() ==> (#[trigger] active@[j]) < num,
                r@.no_duplicates(),
                forall|x: usize| #[trigger] r@.contains(x) <==> (active@.take(i as int).contains(x) && !comp@.contains(x)),
                forall|j: int| 0 <= j < r@.len() ==> (#[trigger] r@[j]) < num,
            decreases active@.len() - i,
        {
            let x = active[i];
            let ghost r0 = r@;
            proof {
                assert(active@.take(i + 1) =~= active@.take(i as int).push(x));
                assert(!active@.take(i as int).contains(x)) by {
                    if active@.take(i as int).contains(x) {
                        let w = choose|w: int| 0 <= w < i && active@.take(i as int)[w] == x;
                        assert(active@[w] == active@[i as int]);
                    }
                }
                assert(marks@[x as int] == comp@.contains(x));
            }
            if marks[x] {
                proof {
                    assert forall|y: usize| #[trigger] r@.contains(y) <==> (active@.take(i + 1).contains(y)
                        && !comp@.contains(y)) by {
                        if active@.take(i + 1).contains(y) && y != x {
                            let w = choose|w: int| 0 <= w < i + 1 && #[trigger] active@.take(i + 1)[w] == y;
                            assert(w < i);
                            assert(active@.take(i as int)[w] == y);
                        }
                        if active@.take(i as int).contains(y) {
                            let w = choose|w: int| 0 <= w < i && #[trigger] active@.take(i as int)[w] == y;
                            assert(active@.take(i + 1)[w] == y);
                        }
                    }
                }
            } else {
                r.push(x);
                proof {
                    assert forall|a: int, b: int| 0 <= a < r@.len() && 0 <= b < r@.len() && a != b implies #[trigger] r@[a]
                        != #[trigger] r@[b] by {
                        if a == r0.len() {
                            assert(r@[b] == r0[b]);
                            assert(r0.contains(r0[b]));
                        } else if b == r0.len() {
                            assert(r@[a] == r0[a]);
                            assert(r0.contains(r0[a]));
                        } else {
                            assert(r@[a] == r0[a]);
                            assert(r@[b] == r0[b]);
                        }
                    }
                    assert forall|y: usize| #[trigger] r@.contains(y) <==> (active@.take(i + 1).contains(y)
                        && !comp@.contains(y)) by {
                        if r@.contains(y) {
                            let w = choose|w: int| 0 <= w < r@.len() && r@[w] == y;
                            if w < r0.len() {
                                assert(r0[w] == y);
                                assert(r0.contains(y));
                            }
                        }
                        if r0.contains(y) {
                            let w = choose|w: int| 0 <= w < r0.len() && r0[w] == y;
                            assert(r@[w] == y);
                            assert(active@.take(i as int).contains(y));
                            let w2 = choose|w2: int| 0 <= w2 < i && #[trigger] active@.take(i as int)[w2] == y;
                            assert(active@.take(i + 1)[w2] == y);
                        }
                        if y == x {
                            assert(r@[r0.len() as int] == x);
                            assert(active@.take(i + 1)[i as int] == x);
                        }
                        if active@.take(i + 1).contains(y) && y != x {
                            let w = choose|w: int| 0 <= w < i + 1 && #[trigger] active@.take(i + 1)[w] == y;
                            assert(w < i);
                            assert(active@.take(i as int)[w] == y);
                        }
                    }
                }
            }
            i += 1;
        }
        assert(active@.take(active@.len() as int) =~= active@);
        r
    }

    /// The set of the regions listed in `active`.
    fn region_set(active: &[usize]) -> (set: HashSet<usize>)
        ensures
            forall|x: usize| #[trigger] set@.contains(x) <==> active@.contains(x),
    {
        broadcast use vstd::std_specs::hash::group_hash_axioms;
        let mut set: HashSet<usize> = HashSet::new();
        let mut i: usize = 0;
        while i < active.len()
            invariant
                i <= active@.len(),
                forall|x: usize| #[trigger] set@.contains(x) <==> active@.take(i as int).contains(x),
            decreases active@.len() - i,
        {
            let ghost before = set@;
            set.insert(active[i]);
            proof {
                let pre = active@.take(i as int);
                let post = active@.take(i + 1);
                assert(post =~= pre.push(active@[i as int]));
                assert forall|x: usize| #[trigger] set@.contains(x) <==> post.contains(x) by {
                    if post.contains(x) && x != active@[i as int] {
                        let w = choose|w: int| 0 <= w < post.len() && post[w] == x;
                        assert(pre[w] == x);
                    }
                    if pre.contains(x) {
                        let w = choose|w: int| 0 <= w < pre.len() && pre[w] == x;
                        assert(post[w] == x);
                    }
                    if x == active@[i as int] {
                        assert(post[i as int] == x);
                    }
                }
            }
            i += 1;
        }
        assert(active@.take(active@.len() as int) =~= active@);
        set
    }

    /// Marks the regions listed in `active` among `num_regions` regions.
    fn mark_regions(num_regions: usize, active: &[usize]) -> (marks: Vec<bool>)
        requires
            forall|j: int| 0 <= j < active@.len() ==> (#[trigger] active@[j]) < num_regions,
        ensures
            marks@.len() == num_regions,
            marks_of(marks@, active@),
    {
        let mut marks: Vec<bool> = vec![false; num_regions];
        let mut i: usize = 0;
        while i < active.len()
            invariant
                i <= active@.len(),
                marks@.len() == num_regions,
                forall|j: int| 0 <= j < active@.len() ==> (#[trigger] active@[j]) < num_regions,
                forall|x: int|
                    0 <= x < num_regions ==> #[trigger] marks@[x] == active@.take(i as int).contains(
                        x as usize,
                    ),
            decreases active@.len() - i,
        {
            let ghost before = marks@;
            marks.set(active[i], true);
            proof {
                let pre = active@.take(i as int);
                let post = active@.take(i + 1);
                assert(post =~= pre.push(active@[i as int]));
                assert forall|x: int| 0 <= x < num_regions implies #[trigger] marks@[x]
                    == post.contains(x as usize) by {
                    if x == active@[i as int] as int {
                        assert(post[i as int] == active@[i as int]);
                    } else {
                        assert(marks@[x] == before[x]);
                        if post.contains(x as usize) {
                            let w = choose|w: int| 0 <= w < post.len() && post[w] == x as usize;
                            assert(w < pre.len());
                            assert(pre[w] == x as usize);
                        }
                        if pre.contains(x as usize) {
                            let w = choose|w: int| 0 <= w < pre.len() && pre[w] == x as usize;
                            assert(post[w] == x as usize);
                        }
                    }
                }
            }
            i += 1;
        }
        assert(active@.take(active@.len() as int) =~= active@);
        marks
    }

    /// Number of regions reachable from `start` through marked regions
    /// without passing through `blocked`.
    fn count_component(
        start: usize,
        blocked: usize,
        adj: &Vec<Vec<(usize, usize)>>,
        active: &HashSet<usize>,
        Ghost(listed): Ghost<Seq<usize>>,
    ) -> (count: usize)
        requires
            start < adj@.len(),
            active@.contains(start),
            marks_of(set_marks(active@, adj@.len() as int), listed),
            listed.no_duplicates(),
            forall|u: int, k: int|
                0 <= u < adj@.len() && 0 <= k < adj@[u]@.len() ==> (#[trigger] adj@[u]@[k]).0 < adj@.len(),
        ensures
            count <= listed.len(),
            count == component(adj@, set_marks(active@, adj@.len() as int), blocked, start).len(),
    {
        broadcast use vstd::std_specs::hash::group_hash_axioms;
        let ghost am = set_marks(active@, adj@.len() as int);
        let comp = Self::get_component(start, blocked, adj, active, Ghost(listed));
        proof {
            assert(comp@.to_set() =~= component(adj@, am, blocked, start));
            comp@.unique_seq_to_set();
        }
        comp.len()
    }

    /// The regions reachable from `start` through marked regions without
    /// passing through `blocked`, in the order a depth-first search visits them.
    fn get_component(
        start: usize,
        blocked: usize,
        adj: &Vec<Vec<(usize, usize)>>,
        active: &HashSet<usize>,
        Ghost(listed): Ghost<Seq<usize>>,
    ) -> (res: Vec<usize>)
        requires
            start < adj@.len(),
            active@.contains(start),
            marks_of(set_marks(active@, adj@.len() as int), listed),
            listed.no_duplicates(),
            forall|u: int, k: int|
                0 <= u < adj@.len() && 0 <= k < adj@[u]@.len() ==> (#[trigger] adj@[u]@[k]).0 < adj@.len(),
        ensures
            res@.no_duplicates(),
            res@.len() > 0,
            res@.len() <= listed.len(),
            forall|x: usize| res@.contains(x) ==> listed.contains(x),
            forall|j: int| 0 <= j < res@.len() ==> (#[trigger] res@[j]) < adj@.len(),
            forall|x: usize| res@.contains(x) <==> in_component(adj@, set_marks(active@, adj@.len() as int), blocked, start, x),
    {
        broadcast use vstd::std_specs::hash::group_hash_axioms;
        let ghost am = set_marks(active@, adj@.len() as int);
        let num = adj.len();
        let mut visited: HashSet<usize> = HashSet::new();
        let mut stack: Vec<usize> = Vec::new();
        stack.push(start);
        visited.insert(start);
        let mut res: Vec<usize> = Vec::new();
        proof {
            assert forall|x: int| 0 <= x < num implies #[trigger] set_marks(visited@, num as int)[x] == (res@.contains(x as usize)
                || stack@.contains(x as usize)) by {
                if x == start as int {
                    assert(stack@[0] == start);
                }
            }
        }
        while stack.len() > 0
            invariant
                num == adj@.len() == set_marks(visited@, num as int).len() == am.len(),
                am == set_marks(active@, adj@.len() as int),
                start < num,
                marks_of(am, listed),
                listed.no_duplicates(),
                forall|u: int, k: int|
                    0 <= u < adj@.len() && 0 <= k < adj@[u]@.len() ==> (#[trigger] adj@[u]@[k]).0 < adj@.len(),
                res@.len() > 0 || stack@.len() > 0,
                res@.no_duplicates(),
                stack@.no_duplicates(),
                forall|x: usize| !(res@.contains(x) && stack@.contains(x)),
                forall|x: int|
                    0 <= x < num ==> #[trigger] set_marks(visited@, num as int)[x] == (res@.contains(x as usize) || stack@.contains(
                        x as usize,
                    )),
                forall|j: int| 0 <= j < res@.len() ==> (#[trigger] res@[j]) < num && am[res@[j] as int],
                forall|j: int|
                    0 <= j < stack@.len() ==> (#[trigger] stack@[j]) < num && am[stack@[j] as int],
                set_marks(visited@, num as int)[start as int],
                forall|j: int|
                    0 <= j < res@.len() ==> in_component(adj@, am, blocked, start, #[trigger] res@[j]),
                forall|j: int|
                    0 <= j < stack@.len() ==> in_component(adj@, am, blocked, start, #[trigger] stack@[j]),
                forall|j: int|
                    0 <= j < res@.len() ==> expanded(
                        adj@,
                        am,
                        blocked,
                        set_marks(visited@, num as int),
                        #[trigger] res@[j],
                        adj@[res@[j] as int]@.len() as int,
                    ),
            decreases num - res@.len(), stack@.len(),
        {
            proof {
                lemma_distinct_below(res@, num as int);
            }
            let ghost s0 = stack@;
            let ghost r0 = res@;
            let curr = stack.pop().unwrap();
            res.push(curr);
            proof {
                let last = s0.len() - 1;
                assert(curr == s0[last]);
                assert(s0.contains(curr));
                assert(!r0.contains(curr));
                assert(stack@ =~= s0.drop_last());
                assert(res@ =~= r0.push(curr));
                assert forall|a: int, b: int| 0 <= a < res@.len() && 0 <= b < res@.len() && a != b
                    implies #[trigger] res@[a] != #[trigger] res@[b] by {
                    if a == r0.len() {
                        assert(res@[b] == r0[b]);
                        assert(r0.contains(r0[b]));
                    } else if b == r0.len() {
                        assert(res@[a] == r0[a]);
                        assert(r0.contains(r0[a]));
                    } else {
                        assert(res@[a] == r0[a]);
                        assert(res@[b] == r0[b]);
                    }
                }
                assert forall|x: usize| !(res@.contains(x) && stack@.contains(x)) by {
                    if res@.contains(x) && stack@.contains(x) {
                        let w = choose|w: int| 0 <= w < res@.len() && res@[w] == x;
                        let w2 = choose|w2: int| 0 <= w2 < stack@.len() && stack@[w2] == x;
                        assert(s0[w2] == x);
                        if w < r0.len() {
                            assert(r0[w] == x);
                            assert(r0.contains(x));
                            assert(s0.contains(x));
                        } else {
                            assert(x == curr);
                            assert(s0[last] == s0[w2]);
                        }
                    }
                }
                assert forall|x: int| 0 <= x < num implies #[trigger] set_marks(visited@, num as int)[x] == (res@.contains(
                    x as usize,
                ) || stack@.contains(x as usize)) by {
                    let xu = x as usize;
                    if s0.contains(xu) {
                        let w = choose|w: int| 0 <= w < s0.len() && s0[w] == xu;
                        if w == last {
                            assert(res@[r0.len() as int] == xu);
                        } else {
                            assert(stack@[w] == xu);
                        }
                    }
                    if r0.contains(xu) {
                        let w = choose|w: int| 0 <= w < r0.len() && r0[w] == xu;
                        assert(res@[w] == xu);
                    }
                    if res@.contains(xu) {
                        let w = choose|w: int| 0 <= w < res@.len() && res@[w] == xu;
                        if w < r0.len() {
                            assert(r0[w] == xu);
                        } else {
                            assert(s0[last] == xu);
                        }
                    }
                    if stack@.contains(xu) {
                        let w = choose|w: int| 0 <= w < stack@.len() && stack@[w] == xu;
                        assert(s0[w] == xu);
                    }
                }
                assert forall|j: int| 0 <= j < res@.len() implies (#[trigger] res@[j]) < num
                    && am[res@[j] as int] by {
                    if j < r0.len() {
                        assert(res@[j] == r0[j]);
                    }
                }
                assert forall|j: int| 0 <= j < stack@.len() implies (#[trigger] stack@[j]) < num
                    && am[stack@[j] as int] by {
                    assert(stack@[j] == s0[j]);
                }
                lemma_distinct_below(res@, num as int);
                assert forall|j: int| 0 <= j < res@.len() implies in_component(
                    adj@,
                    am,
                    blocked,
                    start,
                    #[trigger] res@[j],
                ) by {
                    if j < r0.len() {
                        assert(res@[j] == r0[j]);
                    } else {
                        assert(res@[j] == s0[last]);
                    }
                }
                assert forall|j: int| 0 <= j < stack@.len() implies in_component(
                    adj@,
                    am,
                    blocked,
                    start,
                    #[trigger] stack@[j],
                ) by {
                    assert(stack@[j] == s0[j]);
                }
                assert forall|j: int| 0 <= j < res@.len() - 1 implies expanded(
                    adj@,
                    am,
                    blocked,
                    set_marks(visited@, num as int),
                    #[trigger] res@[j],
                    adj@[res@[j] as int]@.len() as int,
                ) by {
                    assert(res@[j] == r0[j]);
                }
                assert(res@[res@.len() - 1] == curr);
            }
            let mut k: usize = 0;
            while k < adj[curr].len()
                invariant
                    num == adj@.len() == set_marks(visited@, num as int).len() == am.len(),
                    am == set_marks(active@, adj@.len() as int),
                am == set_marks(active@, adj@.len() as int),
                    curr < num,
                    k <= adj@[curr as int]@.len(),
                    marks_of(am, listed),
                    forall|u: int, k2: int|
                        0 <= u < adj@.len() && 0 <= k2 < adj@[u]@.len() ==> (#[trigger] adj@[u]@[k2]).0
                            < adj@.len(),
                    res@.len() > 0,
                    res@.len() <= num,
                    res@.no_duplicates(),
                    stack@.no_duplicates(),
                    forall|x: usize| !(res@.contains(x) && stack@.contains(x)),
                    forall|x: int|
                        0 <= x < num ==> #[trigger] set_marks(visited@, num as int)[x] == (res@.contains(x as usize)
                            || stack@.contains(x as usize)),
                    forall|j: int|
                        0 <= j < res@.len() ==> (#[trigger] res@[j]) < num && am[res@[j] as int],
                    forall|j: int|
                        0 <= j < stack@.len() ==> (#[trigger] stack@[j]) < num && am[stack@[j] as int],
                    start < num,
                    set_marks(visited@, num as int)[start as int],
                    res@[res@.len() - 1] == curr,
                    forall|j: int|
                        0 <= j < res@.len() ==> in_component(adj@, am, blocked, start, #[trigger] res@[j]),
                    forall|j: int|
                        0 <= j < stack@.len() ==> in_component(adj@, am, blocked, start, #[trigger] stack@[j]),
                    forall|j: int|
                        0 <= j < res@.len() - 1 ==> expanded(
                            adj@,
                            am,
                            blocked,
                            set_marks(visited@, num as int),
                            #[trigger] res@[j],
                            adj@[res@[j] as int]@.len() as int,
                        ),
                    expanded(adj@, am, blocked, set_marks(visited@, num as int), curr, k as int),
                decreases adj@[curr as int]@.len() - k,
            {
                let (nbr, _) = adj[curr][k];
                proof {
                    assert(adj@[curr as int]@[k as int].0 == nbr);
                }
                if nbr != blocked && active.contains(&nbr) && !visited.contains(&nbr) {
                    let ghost s1 = stack@;
                    let ghost v1 = set_marks(visited@, num as int);
                    proof {
                        assert(!v1[nbr as int]);
                        assert forall|st: Set<usize>| #[trigger] step_closed(adj@, am, blocked, st) && st.contains(
                            start,
                        ) implies st.contains(nbr) by {
                            assert(in_component(adj@, am, blocked, start, res@[res@.len() - 1]));
                            assert(st.contains(curr));
                            assert(adj@[curr as int]@[k as int].0 == nbr);
                        }
                    }
                    visited.insert(nbr);
                    stack.push(nbr);
                    proof {
                        assert forall|x: int| 0 <= x < v1.len() && #[trigger] v1[x] implies set_marks(visited@, num as int)[x] by {}
                        assert forall|j: int| 0 <= j < res@.len() - 1 implies expanded(
                            adj@,
                            am,
                            blocked,
                            set_marks(visited@, num as int),
                            #[trigger] res@[j],
                            adj@[res@[j] as int]@.len() as int,
                        ) by {
                            lemma_expanded_more(
                                adj@,
                                am,
                                blocked,
                                v1,
                                set_marks(visited@, num as int),
                                res@[j],
                                adj@[res@[j] as int]@.len() as int,
                            );
                        }
                        lemma_expanded_more(adj@, am, blocked, v1, set_marks(visited@, num as int), curr, k as int);
                        assert(expanded(adj@, am, blocked, set_marks(visited@, num as int), curr, k + 1));
                        assert forall|j: int| 0 <= j < stack@.len() implies in_component(
                            adj@,
                            am,
                            blocked,
                            start,
                            #[trigger] stack@[j],
                        ) by {
                            if j < s1.len() {
                                assert(stack@[j] == s1[j]);
                            }
                        }
                    }
                    proof {
                        assert(stack@ =~= s1.push(nbr));
                        assert(!s1.contains(nbr));
                        assert(!res@.contains(nbr));
                        assert forall|a: int, b: int| 0 <= a < stack@.len() && 0 <= b < stack@.len() && a != b
                            implies #[trigger] stack@[a] != #[trigger] stack@[b] by {
                            if a == s1.len() {
                                assert(stack@[b] == s1[b]);
                                assert(s1.contains(s1[b]));
                            } else if b == s1.len() {
                                assert(stack@[a] == s1[a]);
                                assert(s1.contains(s1[a]));
                            } else {
                                assert(stack@[a] == s1[a]);
                                assert(stack@[b] == s1[b]);
                            }
                        }
                        assert forall|x: usize| !(res@.contains(x) && stack@.contains(x)) by {
                            if res@.contains(x) && stack@.contains(x) {
                                let w2 = choose|w2: int| 0 <= w2 < stack@.len() && stack@[w2] == x;
                                if w2 < s1.len() {
                                    assert(s1[w2] == x);
                                    assert(s1.contains(x));
                                }
                            }
                        }
                        assert forall|x: int| 0 <= x < num implies #[trigger] set_marks(visited@, num as int)[x] == (res@.contains(
                            x as usize,
                        ) || stack@.contains(x as usize)) by {
                            let xu = x as usize;
                            assert(set_marks(visited@, num as int)[x] == (v1[x] || x == nbr as int));
                            if x == nbr as int {
                                assert(stack@[s1.len() as int] == nbr);
                            } else {
                                if stack@.contains(xu) {
                                    let w = choose|w: int| 0 <= w < stack@.len() && stack@[w] == xu;
                                    assert(w < s1.len());
                                    assert(s1[w] == xu);
                                }
                                if s1.contains(xu) {
                                    let w = choose|w: int| 0 <= w < s1.len() && s1[w] == xu;
                                    assert(stack@[w] == xu);
                                }
                            }
                        }
                        assert forall|j: int| 0 <= j < stack@.len() implies (#[trigger] stack@[j]) < num
                            && am[stack@[j] as int] by {
                            if j < s1.len() {
                                assert(stack@[j] == s1[j]);
                            }
                        }
                    }
                }
                proof {
                    assert(expanded(adj@, am, blocked, set_marks(visited@, num as int), curr, k + 1));
                }
                k += 1;
            }
            proof {
                assert forall|j: int| 0 <= j < res@.len() implies expanded(
                    adj@,
                    am,
                    blocked,
                    set_marks(visited@, num as int),
                    #[trigger] res@[j],
                    adj@[res@[j] as int]@.len() as int,
                ) by {
                    if j == res@.len() - 1 {
                        assert(res@[j] == curr);
                    }
                }
            }
        }
        proof {
            let rs = res@.to_set();
            assert forall|u: usize, k: int|
                #![trigger rs.contains(u), adj@[u as int]@[k]]
                rs.contains(u) && (u as int) < adj@.len() && 0 <= k < adj@[u as int]@.len() && enterable(
                    am,
                    blocked,
                    adj@[u as int]@[k].0,
                ) implies rs.contains(adj@[u as int]@[k].0) by {
                let j = choose|j: int| 0 <= j < res@.len() && res@[j] == u;
                assert(expanded(adj@, am, blocked, set_marks(visited@, num as int), res@[j], adj@[res@[j] as int]@.len() as int));
                let w = adj@[u as int]@[k].0;
                assert(set_marks(visited@, num as int)[w as int]);
                assert(res@.contains(w));
            }
            assert(step_closed(adj@, am, blocked, rs));
            assert(res@.contains(start));
            assert(rs.contains(start));
            assert forall|x: usize| res@.contains(x) <==> in_component(adj@, am, blocked, start, x) by {
                if res@.contains(x) {
                    let j = choose|j: int| 0 <= j < res@.len() && res@[j] == x;
                    assert(in_component(adj@, am, blocked, start, res@[j]));
                }
                if in_component(adj@, am, blocked, start, x) {
                    assert(rs.contains(x));
                }
            }
        }
        proof {
            assert forall|x: usize| res@.contains(x) implies listed.contains(x) by {
                let w = choose|w: int| 0 <= w < res@.len() && res@[w] == x;
                assert(am[res@[w] as int]);
            }
            lemma_distinct_within(res@, listed);
        }
        res
    }
}

/// A tree whose leaves lie in `sub` has its leaves in any `sup` holding `sub`.
proof fn lemma_tree_within<P, S>(
    t: CentroidTreeNode,
    sub: Seq<usize>,
    sup: Seq<usize>,
    chords: Seq<Chord<P, S>>,
)
    requires
        sub.len() == 0 ==> t == (CentroidTreeNode::Leaf { region_id: 0 }),
        sub.len() > 0 ==> tree_drawn_from(t, sub, chords),
        sup.len() > 0,
        forall|x: usize| sub.contains(x) ==> sup.contains(x),
        sub.len() == 0 ==> sup.contains(0),
    ensures
        tree_drawn_from(t, sup, chords),
    decreases t,
{
    match t {
        CentroidTreeNode::Leaf { region_id } => {},
        CentroidTreeNode::Internal { chord_id, left_child, right_child } => {
            lemma_tree_within(*left_child, sub, sup, chords);
            lemma_tree_within(*right_child, sub, sup, chords);
        },
    }
}

/// Cutting the chord between `u` and `v`: the side `cu` of `u` (its
/// component without entering `v`) and the rest `cv` of `active` split
/// `active` into two smaller, disjoint parts holding `u` and `v`.
proof fn lemma_component_sides(
    adj: Seq<Vec<(usize, usize)>>,
    marks: Seq<bool>,
    active: Seq<usize>,
    cu: Seq<usize>,
    cv: Seq<usize>,
    u: usize,
    v: usize,
)
    requires
        u != v,
        active.contains(u),
        active.contains(v),
        active.no_duplicates(),
        cu.no_duplicates(),
        cv.no_duplicates(),
        forall|x: usize| cu.contains(x) ==> active.contains(x),
        forall|x: usize| cu.contains(x) <==> in_component(adj, marks, v, u, x),
        forall|x: usize| #[trigger] cv.contains(x) <==> (active.contains(x) && !cu.contains(x)),
    ensures
        cu.contains(u),
        !cu.contains(v),
        cv.contains(v),
        !cv.contains(u),
        forall|x: usize| cv.contains(x) ==> active.contains(x),
        forall|x: usize| cu.contains(x) ==> !cv.contains(x),
        0 < cu.len() < active.len(),
        0 < cv.len() < active.len(),
{
    assert forall|st: Set<usize>| #[trigger] step_closed(adj, marks, v, st) && st.contains(u) implies st.contains(u) by {}
    assert(in_component(adj, marks, v, u, u));
    let not_v = Set::new(|x: usize| x != v);
    assert(step_closed(adj, marks, v, not_v));
    assert(!in_component(adj, marks, v, u, v)) by {
        assert(!not_v.contains(v));
    }
    assert(cu.contains(u));
    assert(!cu.contains(v));
    assert(cv.contains(v));
    // Sizes, through the sets of the sequences.
    cu.unique_seq_to_set();
    cv.unique_seq_to_set();
    active.unique_seq_to_set();
    let sa = active.to_set();
    assert(cu.to_set().subset_of(sa.remove(v)));
    assert(cv.to_set().subset_of(sa.remove(u)));
    vstd::set_lib::lemma_len_subset(cu.to_set(), sa.remove(v));
    vstd::set_lib::lemma_len_subset(cv.to_set(), sa.remove(u));
    assert(cu.len() > 0) by {
        assert(cu.to_set().contains(u));
    }
    assert(cv.len() > 0) by {
        assert(cv.to_set().contains(v));
    }
}

/// The regions below `n`, each marked by whether `active` lists it.
pub open spec fn seq_marks(active: Seq<usize>, n: int) -> Seq<bool> {
    Seq::new(n as nat, |i: int| active.contains(i as usize))
}

/// Each region of `active` is reached from each other one through regions
/// of `active` alone.
pub open spec fn linked(adj: Seq<Vec<(usize, usize)>>, active: Seq<usize>) -> bool {
    forall|x: usize, y: usize|
        active.contains(x) && active.contains(y) ==> #[trigger] in_component(
            adj,
            seq_marks(active, adj.len() as int),
            adj.len() as usize,
            x,
            y,
        )
}

/// Every entry of the lists names a region.
pub open spec fn entries_in_range(adj: Seq<Vec<(usize, usize)>>) -> bool {
    forall|u: int, k: int| 0 <= u < adj.len() && 0 <= k < adj[u]@.len() ==> (#[trigger] adj[u]@[k]).0 < adj.len()
}

/// Whenever the list of `u` names `w`, the list of `w` names `u`.
pub open spec fn adjacency_symmetric(adj: Seq<Vec<(usize, usize)>>) -> bool {
    forall|u: int, k: int|
        0 <= u < adj.len() && 0 <= k < adj[u]@.len() ==> lists_pair(adj, (#[trigger] adj[u]@[k]).0, u as usize)
}

/// The chords join all `m` regions into one: a set of regions that holds
/// region 0, and with either region of a chord between two of the `m` the
/// other too, holds all of them.
pub open spec fn regions_joined<P, S>(chords: Seq<Chord<P, S>>, m: int) -> bool {
    forall|s: Set<usize>|
        #[trigger] chord_closed(chords, m, s) && s.contains(0) ==> forall|x: usize| (x as int) < m ==> s.contains(x)
}

/// With either region of a chord between two of the `m` regions, `s` holds the other.
pub open spec fn chord_closed<P, S>(chords: Seq<Chord<P, S>>, m: int, s: Set<usize>) -> bool {
    forall|j: int|
        0 <= j < chords.len() && ((#[trigger] chords[j]).region1 as int) < m && (chords[j].region2 as int) < m
            ==> (s.contains(chords[j].region1) <==> s.contains(chords[j].region2))
}

proof fn lemma_reach_refl(adj: Seq<Vec<(usize, usize)>>, m: Seq<bool>, b: usize, x: usize)
    ensures
        in_component(adj, m, b, x, x),
{
    assert forall|s: Set<usize>| #[trigger] step_closed(adj, m, b, s) && s.contains(x) implies s.contains(x) by {}
}

proof fn lemma_reach_trans(adj: Seq<Vec<(usize, usize)>>, m: Seq<bool>, b: usize, a: usize, x: usize, y: usize)
    requires
        in_component(adj, m, b, a, x),
        in_component(adj, m, b, x, y),
    ensures
        in_component(adj, m, b, a, y),
{
    assert forall|s: Set<usize>| #[trigger] step_closed(adj, m, b, s) && s.contains(a) implies s.contains(y) by {
        assert(s.contains(x));
    }
}

proof fn lemma_reach_step(adj: Seq<Vec<(usize, usize)>>, m: Seq<bool>, b: usize, x: usize, k: int)
    requires
        (x as int) < adj.len(),
        0 <= k < adj[x as int]@.len(),
        enterable(m, b, adj[x as int]@[k].0),
    ensures
        in_component(adj, m, b, x, adj[x as int]@[k].0),
{
    assert forall|s: Set<usize>| #[trigger] step_closed(adj, m, b, s) && s.contains(x) implies s.contains(
        adj[x as int]@[k].0,
    ) by {
        assert(adj[x as int]@[k] == adj[x as int]@[k]);
    }
}

/// With symmetric lists, what an enterable region reaches reaches it back.
proof fn lemma_reach_back(adj: Seq<Vec<(usize, usize)>>, m: Seq<bool>, b: usize, x: usize, y: usize)
    requires
        adjacency_symmetric(adj),
        entries_in_range(adj),
        (x as int) < adj.len(),
        enterable(m, b, x),
        in_component(adj, m, b, x, y),
    ensures
        in_component(adj, m, b, y, x),
{
    let t = Set::new(|z: usize| enterable(m, b, z) && in_component(adj, m, b, z, x));
    assert forall|z: usize, k: int|
        #![trigger t.contains(z), adj[z as int]@[k]]
        t.contains(z) && (z as int) < adj.len() && 0 <= k < adj[z as int]@.len() && enterable(
            m,
            b,
            adj[z as int]@[k].0,
        ) implies t.contains(adj[z as int]@[k].0) by {
        let w = adj[z as int]@[k].0;
        assert(lists_pair(adj, w, z));
        let k2 = choose|k2: int| 0 <= k2 < adj[w as int]@.len() && (#[trigger] adj[w as int]@[k2]).0 == z;
        lemma_reach_step(adj, m, b, w, k2);
        lemma_reach_trans(adj, m, b, w, z, x);
    }
    assert(step_closed(adj, m, b, t));
    lemma_reach_refl(adj, m, b, x);
    assert(t.contains(x));
    assert(t.contains(y));
}

/// The component of `u` once `v` is blocked is linked within itself.
proof fn lemma_side_linked(adj: Seq<Vec<(usize, usize)>>, m: Seq<bool>, v: usize, u: usize, cu: Seq<usize>)
    requires
        adj.len() <= usize::MAX,
        adjacency_symmetric(adj),
        entries_in_range(adj),
        (u as int) < adj.len(),
        forall|x: usize| cu.contains(x) <==> in_component(adj, m, v, u, x),
        forall|x: usize| cu.contains(x) ==> (x as int) < adj.len(),
    ensures
        linked(adj, cu),
{
    let n = adj.len() as int;
    let nb = adj.len() as usize;
    let mc = seq_marks(cu, n);
    let cs = cu.to_set();
    assert forall|z: usize, k: int|
        #![trigger cs.contains(z), adj[z as int]@[k]]
        cs.contains(z) && (z as int) < adj.len() && 0 <= k < adj[z as int]@.len() && enterable(
            mc,
            nb,
            adj[z as int]@[k].0,
        ) implies cs.contains(adj[z as int]@[k].0) by {}
    assert(step_closed(adj, mc, nb, cs));
    lemma_reach_refl(adj, m, v, u);
    assert(cu.contains(u));
    let r = Set::new(|z: usize| in_component(adj, mc, nb, u, z));
    assert forall|z: usize, k: int|
        #![trigger r.contains(z), adj[z as int]@[k]]
        r.contains(z) && (z as int) < adj.len() && 0 <= k < adj[z as int]@.len() && enterable(
            m,
            v,
            adj[z as int]@[k].0,
        ) implies r.contains(adj[z as int]@[k].0) by {
        let w = adj[z as int]@[k].0;
        assert(cs.contains(u));
        assert(cs.contains(z));
        lemma_reach_step(adj, m, v, z, k);
        lemma_reach_trans(adj, m, v, u, z, w);
        assert(cu.contains(w));
        assert(enterable(mc, nb, w));
        lemma_reach_step(adj, mc, nb, z, k);
        lemma_reach_trans(adj, mc, nb, u, z, w);
    }
    assert(step_closed(adj, m, v, r));
    lemma_reach_refl(adj, mc, nb, u);
    assert(r.contains(u));
    assert forall|x: usize, y: usize| cu.contains(x) && cu.contains(y) implies #[trigger] in_component(
        adj,
        seq_marks(cu, adj.len() as int),
        adj.len() as usize,
        x,
        y,
    ) by {
        assert(in_component(adj, m, v, u, x));
        assert(r.contains(x));
        assert(in_component(adj, m, v, u, y));
        assert(r.contains(y));
        assert(enterable(mc, nb, u));
        lemma_reach_back(adj, mc, nb, u, x);
        lemma_reach_trans(adj, mc, nb, x, u, y);
    }
}

/// The regions of a linked `active` outside the component of `u` once `v`
/// is blocked are linked within themselves.
proof fn lemma_rest_linked(
    adj: Seq<Vec<(usize, usize)>>,
    active: Seq<usize>,
    v: usize,
    u: usize,
    cu: Seq<usize>,
    cv: Seq<usize>,
)
    requires
        adj.len() <= usize::MAX,
        adjacency_symmetric(adj),
        entries_in_range(adj),
        linked(adj, active),
        active.contains(u),
        active.contains(v),
        u != v,
        forall|x: usize| active.contains(x) ==> (x as int) < adj.len(),
        forall|x: usize| cu.contains(x) <==> in_component(adj, seq_marks(active, adj.len() as int), v, u, x),
        forall|x: usize| #[trigger] cv.contains(x) <==> (active.contains(x) && !cu.contains(x)),
    ensures
        linked(adj, cv),
{
    let n = adj.len() as int;
    let nb = adj.len() as usize;
    let m = seq_marks(active, n);
    let mv = seq_marks(cv, n);
    let cvs = cv.to_set();
    assert forall|z: usize, k: int|
        #![trigger cvs.contains(z), adj[z as int]@[k]]
        cvs.contains(z) && (z as int) < adj.len() && 0 <= k < adj[z as int]@.len() && enterable(
            mv,
            nb,
            adj[z as int]@[k].0,
        ) implies cvs.contains(adj[z as int]@[k].0) by {}
    assert(step_closed(adj, mv, nb, cvs));
    let not_v = Set::new(|x: usize| x != v);
    assert(step_closed(adj, m, v, not_v));
    assert(!not_v.contains(v));
    assert(!cu.contains(v));
    assert(cv.contains(v));
    lemma_reach_refl(adj, m, v, u);
    assert(cu.contains(u));
    let r = Set::new(|z: usize| in_component(adj, mv, nb, v, z));
    lemma_reach_refl(adj, mv, nb, v);
    assert(r.contains(v));
    let s = Set::new(|z: usize| cu.contains(z) || r.contains(z));
    assert forall|z: usize, k: int|
        #![trigger s.contains(z), adj[z as int]@[k]]
        s.contains(z) && (z as int) < adj.len() && 0 <= k < adj[z as int]@.len() && enterable(
            m,
            nb,
            adj[z as int]@[k].0,
        ) implies s.contains(adj[z as int]@[k].0) by {
        let w = adj[z as int]@[k].0;
        if cu.contains(z) {
            if w != v {
                assert(enterable(m, v, w));
                lemma_reach_step(adj, m, v, z, k);
                lemma_reach_trans(adj, m, v, u, z, w);
                assert(cu.contains(w));
            }
        } else {
            assert(r.contains(z));
            assert(cvs.contains(v));
            assert(cvs.contains(z));
            if !cu.contains(w) {
                assert(active.contains(w));
                assert(cv.contains(w));
                assert(enterable(mv, nb, w));
                lemma_reach_step(adj, mv, nb, z, k);
                lemma_reach_trans(adj, mv, nb, v, z, w);
                assert(r.contains(w));
            }
        }
    }
    assert(step_closed(adj, m, nb, s));
    assert(s.contains(u));
    assert forall|x: usize, y: usize| cv.contains(x) && cv.contains(y) implies #[trigger] in_component(
        adj,
        seq_marks(cv, adj.len() as int),
        adj.len() as usize,
        x,
        y,
    ) by {
        assert(in_component(adj, m, nb, u, x));
        assert(s.contains(x));
        assert(r.contains(x));
        assert(in_component(adj, m, nb, u, y));
        assert(s.contains(y));
        assert(r.contains(y));
        assert(enterable(mv, nb, v));
        lemma_reach_back(adj, mv, nb, v, x);
        lemma_reach_trans(adj, mv, nb, x, v, y);
    }
}

/// Two or more linked regions have a chord between two of them.
proof fn lemma_linked_inner_edge(adj: Seq<Vec<(usize, usize)>>, active: Seq<usize>)
    requires
        adj.len() <= usize::MAX,
        adjacency_symmetric(adj),
        entries_in_range(adj),
        linked(adj, active),
        active.len() >= 2,
        active.no_duplicates(),
        forall|j: int| 0 <= j < active.len() ==> (#[trigger] active[j] as int) < adj.len(),
    ensures
        has_inner_edge(adj, active),
{
    let n = adj.len() as int;
    let nb = adj.len() as usize;
    let m = seq_marks(active, n);
    let x = active[0];
    let y = active[1];
    assert(active.contains(x));
    assert(active.contains(y));
    if !has_inner_edge(adj, active) {
        let s = Set::<usize>::empty().insert(x);
        assert forall|z: usize, k: int|
            #![trigger s.contains(z), adj[z as int]@[k]]
            s.contains(z) && (z as int) < adj.len() && 0 <= k < adj[z as int]@.len() && enterable(
                m,
                nb,
                adj[z as int]@[k].0,
            ) implies s.contains(adj[z as int]@[k].0) by {
            let w = adj[z as int]@[k].0;
            assert(z == x);
            assert(active.contains(w));
            if w != x {
                if x < w {
                    assert(has_inner_edge(adj, active));
                } else {
                    assert(lists_pair(adj, w, x));
                    let k2 = choose|k2: int| 0 <= k2 < adj[w as int]@.len() && (#[trigger] adj[w as int]@[k2]).0 == x;
                    assert(has_inner_edge(adj, active));
                }
            }
        }
        assert(step_closed(adj, m, nb, s));
        assert(in_component(adj, m, nb, x, y));
        assert(s.contains(y));
    }
}

/// The chord of a best split of `active` along the lists splits the regions
/// of `active` as evenly as any chord between two of them.
proof fn lemma_best_is_evenest<P, S>(
    adj: Seq<Vec<(usize, usize)>>,
    active: Seq<usize>,
    chords: Seq<Chord<P, S>>,
    cid: usize,
    u: usize,
    v: usize,
)
    requires
        adjacency_ok(adj, chords),
        lists_all_chords(adj, chords),
        active.no_duplicates(),
        forall|j: int| 0 <= j < active.len() ==> (#[trigger] active[j] as int) < adj.len(),
        best_split(adj, active, chords, cid, u, v),
    ensures
        evenest_chord(chords, active.to_set(), cid, u, v),
{
    let m = active.len() as int;
    let within = active.to_set();
    let mk = seq_marks(active, adj.len() as int);
    active.unique_seq_to_set();
    assert forall|x: usize| #[trigger] within.contains(x) implies (x as int) < adj.len() by {
        let j = choose|j: int| 0 <= j < active.len() && active[j] == x;
    }
    lemma_gap_agrees(adj, mk, within, chords, u, v);
    assert forall|j: int|
        0 <= j < chords.len() && within.contains((#[trigger] chords[j]).region1) && within.contains(chords[j].region2)
            && chords[j].region1 != chords[j].region2 implies chord_gap(chords, within, u, v) <= chord_gap(
            chords,
            within,
            low_region(chords[j]),
            high_region(chords[j]),
        ) by {
        let lo = low_region(chords[j]);
        let hi = high_region(chords[j]);
        lemma_gap_agrees(adj, mk, within, chords, lo, hi);
        assert(lists_pair(adj, lo, hi));
        let k = choose|k: int| 0 <= k < adj[lo as int]@.len() && (#[trigger] adj[lo as int]@[k]).0 == hi;
        assert(active.contains(lo));
        assert(none_better(adj, mk, lo, adj[lo as int]@.len() as int, split_gap(adj, mk, u, v, m), m));
        assert(mk[hi as int]);
        assert(adj[lo as int]@[k].0 == hi);
    }
}

/// Over all regions, the chord of a best split is the evenest one.
proof fn lemma_root_evenest<P, S>(
    adj: Seq<Vec<(usize, usize)>>,
    active: Seq<usize>,
    chords: Seq<Chord<P, S>>,
    cid: usize,
)
    requires
        adjacency_ok(adj, chords),
        lists_all_chords(adj, chords),
        active.len() == adj.len() <= usize::MAX,
        forall|i: int| 0 <= i < active.len() ==> #[trigger] active[i] == i as usize,
        exists|u: usize, v: usize| #[trigger] best_split(adj, active, chords, cid, u, v),
    ensures
        exists|u: usize, v: usize| #[trigger] evenest_chord(chords, index_set(adj.len() as int), cid, u, v),
{
    let (u, v) = choose|u: usize, v: usize| #[trigger] best_split(adj, active, chords, cid, u, v);
    lemma_identity_regions(active, adj.len() as int);
    lemma_best_is_evenest(adj, active, chords, cid, u, v);
}

/// The regions `0, 1, ..., n - 1` in order: distinct, below `n`, and all of them.
proof fn lemma_identity_regions(active: Seq<usize>, n: int)
    requires
        active.len() == n <= usize::MAX,
        forall|i: int| 0 <= i < active.len() ==> #[trigger] active[i] == i as usize,
    ensures
        active.no_duplicates(),
        forall|j: int| 0 <= j < active.len() ==> (#[trigger] active[j] as int) < n,
        active.to_set() == index_set(n),
{
    assert forall|a: int, b: int| 0 <= a < active.len() && 0 <= b < active.len() && a != b implies #[trigger] active[a]
        != #[trigger] active[b] by {
        assert(active[a] == a as usize);
        assert(active[b] == b as usize);
    }
    assert forall|j: int| 0 <= j < active.len() implies (#[trigger] active[j] as int) < n by {
        assert(active[j] == j as usize);
    }
    assert forall|x: usize| #[trigger] index_set(n).contains(x) implies active.to_set().contains(x) by {
        assert(active[x as int] == x);
    }
    assert forall|x: usize| #[trigger] active.to_set().contains(x) implies index_set(n).contains(x) by {
        let j = choose|j: int| 0 <= j < active.len() && active[j] == x;
        assert(active[j] == j as usize);
    }
    assert(active.to_set() =~= index_set(n));
}

/// A chord between two distinct regions gives an inner edge of all regions.
proof fn lemma_chord_inner_edge<P, S>(adj: Seq<Vec<(usize, usize)>>, active: Seq<usize>, chords: Seq<Chord<P, S>>)
    requires
        lists_all_chords(adj, chords),
        active.len() == adj.len() <= usize::MAX,
        forall|i: int| 0 <= i < active.len() ==> #[trigger] active[i] == i as usize,
    ensures
        (exists|j: int|
            0 <= j < chords.len() && (#[trigger] chords[j]).region1 != chords[j].region2 && (chords[j].region1 as int)
                < adj.len() && (chords[j].region2 as int) < adj.len()) ==> has_inner_edge(adj, active),
{
    if exists|j: int|
        0 <= j < chords.len() && (#[trigger] chords[j]).region1 != chords[j].region2 && (chords[j].region1 as int)
            < adj.len() && (chords[j].region2 as int) < adj.len() {
        let j = choose|j: int|
            0 <= j < chords.len() && (#[trigger] chords[j]).region1 != chords[j].region2 && (chords[j].region1 as int)
                < adj.len() && (chords[j].region2 as int) < adj.len();
        let c = chords[j];
        assert(active[c.region1 as int] == c.region1);
        assert(active[c.region2 as int] == c.region2);
        let (lo, hi) = if c.region1 < c.region2 {
            (c.region1, c.region2)
        } else {
            (c.region2, c.region1)
        };
        assert(active.contains(lo));
        assert(active.contains(hi));
        assert(lists_pair(adj, lo, hi));
        let k2 = choose|k2: int| 0 <= k2 < adj[lo as int]@.len() && (#[trigger] adj[lo as int]@[k2]).0 == hi;
        assert(active.contains(adj[lo as int]@[k2].0));
        assert(has_inner_edge(adj, active));
    }
}

/// When no region of `active` lists a later region of `active`, none has
/// an inner edge.
proof fn lemma_no_inner_edge(adj: Seq<Vec<(usize, usize)>>, marks: Seq<bool>, active: Seq<usize>)
    requires
        marks.len() == adj.len(),
        marks_of(marks, active),
        forall|j: int| 0 <= j < active.len() ==> (#[trigger] active[j]) < adj.len(),
        forall|u: int, k: int|
            0 <= u < adj.len() && 0 <= k < adj[u]@.len() ==> (#[trigger] adj[u]@[k]).0 < adj.len(),
        forall|j: int|
            0 <= j < active.len() ==> no_forward_edge(adj, marks, #[trigger] active[j], adj[active[j] as int]@.len() as int),
    ensures
        !has_inner_edge(adj, active),
{
    if has_inner_edge(adj, active) {
        let (u, k) = choose|u: usize, k: int|
            active.contains(u) && (u as int) < adj.len() && 0 <= k < adj[u as int]@.len() && active.contains(
                (#[trigger] adj[u as int]@[k]).0,
            ) && u < adj[u as int]@[k].0;
        let w = adj[u as int]@[k].0;
        let ju = choose|ju: int| 0 <= ju < active.len() && active[ju] == u;
        assert(marks[w as int]);
        assert(no_forward_edge(adj, marks, active[ju], adj[active[ju] as int]@.len() as int));
        assert(!(u < adj[u as int]@[k].0 && marks[adj[u as int]@[k].0 as int]));
    }
}


} // verus!
