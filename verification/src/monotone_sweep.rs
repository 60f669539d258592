//! The classic plane-sweep triangulation: decomposition into y-monotone pieces
//! at split and merge vertices, then the linear stack triangulation of each
//! piece (de Berg et al., Chapter 3; Garey et al. 1978).
use vstd::prelude::*;
use crate::geometry::{PolygonGeometry, Turn};
use crate::monotone::{
    Diagonal, TriangulationError, corners_in, distinct_corners, identity_order, is_arrangement,
    piece_views, split_along_diagonals, total_excess, triangles_from,
    valid_piece, valid_pieces, triangles_within,
};

verus! {

/// The stack of the monotone triangulation at step `j`: the positions
/// `sorted[ks[0]], sorted[ks[1]], ...` with `ks` strictly increasing below `j`.
spec fn stack_ok(stack: Seq<usize>, ks: Seq<int>, sorted: Seq<usize>, j: int) -> bool {
    &&& stack.len() == ks.len()
    &&& forall|t: int| 0 <= t < ks.len() ==> 0 <= #[trigger] ks[t] < j
    &&& forall|a: int, b: int| 0 <= a < b < ks.len() ==> #[trigger] ks[a] < #[trigger] ks[b]
    &&& forall|t: int| 0 <= t < stack.len() ==> #[trigger] stack[t] == sorted[ks[t]]
}

proof fn lemma_stack_distinct(stack: Seq<usize>, ks: Seq<int>, sorted: Seq<usize>, j: int, m: int, a: int, b: int)
    requires
        stack_ok(stack, ks, sorted, j),
        is_arrangement(sorted, m),
        0 <= j < m,
        0 <= a < stack.len(),
        0 <= b < stack.len(),
        a != b,
    ensures
        stack[a] != stack[b],
        stack[a] < m,
        stack[a] != sorted[j],
{
    assert(stack[a] == sorted[ks[a]]);
    assert(stack[b] == sorted[ks[b]]);
    if a < b {
        assert(ks[a] < ks[b]);
    } else {
        assert(ks[b] < ks[a]);
    }
    assert(0 <= ks[a] < j);
}

/// The vertices at three distinct positions of a piece form a triangle drawn from it.
proof fn lemma_piece_triangle(piece: Seq<usize>, a: int, b: int, c: int)
    requires
        0 <= a < piece.len(),
        0 <= b < piece.len(),
        0 <= c < piece.len(),
        a != b,
        b != c,
        a != c,
    ensures
        corners_in([piece[a], piece[b], piece[c]], piece),
        piece.no_duplicates() ==> distinct_corners([piece[a], piece[b], piece[c]]),
{
    let t = [piece[a], piece[b], piece[c]];
    assert(t[0] == piece[a]);
    assert(t[1] == piece[b]);
    assert(t[2] == piece[c]);
}

/// Triangulates a y-monotone piece, given as a cycle of polygon vertices, with
/// the classic linear stack algorithm (Garey et al. 1978).
pub fn triangulate_monotone_piece<G: PolygonGeometry>(polygon: &G, piece: &[usize]) -> (r: Result<
    Vec<[usize; 3]>,
    TriangulationError,
>)
    ensures
        piece@.len() < 3 ==> r == Err::<Vec<[usize; 3]>, TriangulationError>(
            TriangulationError::PolygonTooSmall,
        ),
        piece@.len() == 3 ==> (r matches Ok(t) && t@ == seq![[piece@[0], piece@[1], piece@[2]]]),
        r matches Ok(t) ==> t@.len() == piece@.len() - 2 && triangles_from(t@, piece@),
        r matches Err(e) ==> (piece@.len() < 3 || e is InternalError),
{
    let m = piece.len();
    if m < 3 {
        return Err(TriangulationError::PolygonTooSmall);
    }
    if m == 3 {
        let t = vec![[piece[0], piece[1], piece[2]]];
        proof {
            lemma_piece_triangle(piece@, 0, 1, 2);
        }
        return Ok(t);
    }
    // Top and bottom vertices of the piece.

    let mut top_pos: usize = 0;
    let mut bot_pos: usize = 0;
    let mut i: usize = 1;
    while i < m
        invariant
            m == piece@.len(),
            1 <= i <= m,
            top_pos < m,
            bot_pos < m,
        decreases m - i,
    {
        if polygon.is_above(piece[i], piece[top_pos]) {
            top_pos = i;
        }
        if polygon.is_above(piece[bot_pos], piece[i]) {
            bot_pos = i;
        }
        i += 1;
    }
    // The chain from the top round to the bottom is the left chain.

    let mut is_left_chain: Vec<bool> = vec![false; m];
    let mut curr = top_pos;
    while curr != bot_pos
        invariant
            m == piece@.len(),
            is_left_chain@.len() == m,
            curr < m,
            bot_pos < m,
        decreases (if curr <= bot_pos {
            bot_pos - curr
        } else {
            bot_pos + m - curr
        }),
    {
        is_left_chain.set(curr, true);
        curr = if curr + 1 == m {
            0
        } else {
            curr + 1
        };
    }
    is_left_chain.set(bot_pos, true);

    // Positions of the piece ordered from the highest vertex down.
    let sorted_indices = crate::sorting::sorted_positions(polygon, &crate::sorting::SortKey::Vertices(piece));
    let mut stack: Vec<usize> = Vec::new();
    let mut triangles: Vec<[usize; 3]> = Vec::new();
    stack.push(sorted_indices[0]);
    stack.push(sorted_indices[1]);
    let ghost mut ks: Seq<int> = seq![0int, 1int];
    let mut j: usize = 2;
    while j < m
        invariant
            m == piece@.len(),
            4 <= m,
            2 <= j <= m,
            is_left_chain@.len() == m,
            is_arrangement(sorted_indices@, m as int),
            stack@.len() >= 2,
            stack_ok(stack@, ks, sorted_indices@, j as int),
            triangles_from(triangles@, piece@),
        decreases m - j,
    {
        let v_local = sorted_indices[j];
        let v_orig = piece[v_local];
        let top_local = stack[stack.len() - 1];
        proof {
            lemma_stack_distinct(stack@, ks, sorted_indices@, j as int, m as int,
                stack@.len() - 1, 0);
        }
        if is_left_chain[v_local] != is_left_chain[top_local] {
            // Different chains: fan out from v to the whole stack.
            let last = stack[stack.len() - 1];
            let ghost st0 = stack@;
            while stack.len() > 1
                invariant
                    m == piece@.len(),
                    j < m,
                    is_arrangement(sorted_indices@, m as int),
                    stack_ok(st0, ks, sorted_indices@, j as int),
                    1 <= stack@.len() <= st0.len(),
                    stack@ == st0.take(stack@.len() as int),
                    v_local == sorted_indices@[j as int],
                    v_orig == piece@[v_local as int],
                    triangles_from(triangles@, piece@),
                decreases stack@.len(),
            {
                let u = stack.pop().unwrap();
                let next_u = stack[stack.len() - 1];
                proof {
                    let l = stack@.len() as int;
                    assert(u == st0[l]);
                    assert(next_u == st0[l - 1]);
                    lemma_stack_distinct(st0, ks, sorted_indices@, j as int, m as int, l, l - 1);
                    lemma_stack_distinct(st0, ks, sorted_indices@, j as int, m as int, l - 1, l);
                    lemma_piece_triangle(piece@, u as int, next_u as int, v_local as int);
                    assert(stack@ =~= st0.take(l));
                }
                triangles.push([piece[u], piece[next_u], v_orig]);
            }
            stack.clear();
            stack.push(last);
            stack.push(v_local);
            proof {
                ks = seq![ks[ks.len() - 1], j as int];
            }
        } else {
            // Same chain: pop while the turn stays inside the polygon.
            let ghost st0 = stack@;
            let mut last_popped = stack.pop().unwrap();
            let mut go = true;
            while go && stack.len() > 0
                invariant
                    m == piece@.len(),
                    j < m,
                    is_left_chain@.len() == m,
                    is_arrangement(sorted_indices@, m as int),
                    stack_ok(st0, ks, sorted_indices@, j as int),
                    stack@.len() < st0.len(),
                    stack@ == st0.take(stack@.len() as int),
                    last_popped == st0[stack@.len() as int],
                    v_local == sorted_indices@[j as int],
                    v_orig == piece@[v_local as int],
                    triangles_from(triangles@, piece@),
                decreases stack@.len(), (if go { 1int } else { 0int }),
            {
                let next_top = stack[stack.len() - 1];
                let turn = polygon.turn(piece[next_top], piece[last_popped], v_orig);
                let valid_turn = if is_left_chain[v_local] {
                    turn == Turn::Left
                } else {
                    turn == Turn::Right
                };
                if valid_turn {
                    proof {
                        let l = stack@.len() as int;
                        assert(next_top == st0[l - 1]);
                        lemma_stack_distinct(st0, ks, sorted_indices@, j as int, m as int, l, l - 1);
                        lemma_stack_distinct(st0, ks, sorted_indices@, j as int, m as int, l - 1, l);
                        lemma_piece_triangle(piece@, next_top as int, last_popped as int, v_local as int);
                    }
                    triangles.push([piece[next_top], piece[last_popped], v_orig]);
                    last_popped = stack.pop().unwrap();
                    proof {
                        assert(stack@ =~= st0.take(stack@.len() as int));
                    }
                } else {
                    go = false;
                }
            }
            let ghost l = stack@.len() as int;
            stack.push(last_popped);
            stack.push(v_local);
            proof {
                assert(stack@ =~= st0.take(l + 1).push(v_local));
                ks = ks.take(l + 1).push(j as int);
            }
        }
        j += 1;
    }
    if triangles.len() == m - 2 {
        Ok(triangles)
    } else {
        Err(TriangulationError::InternalError("Piece not strictly monotone".to_owned()))
    }
}

/// Sweep-event class of a vertex of a counter-clockwise polygon.
#[derive(Debug, Clone, Copy, PartialEq, Eq, Structural)]
pub enum VertexType {
    Start,
    End,
    Split,
    Merge,
    RegularLeft,
    RegularRight,
}

/// The class of a vertex from whether its previous and next neighbours lie
/// below it in the sweep order and from its turn `(prev, vertex, next)`.
pub open spec fn vertex_type_spec(prev_is_below: bool, next_is_below: bool, turn: Turn) -> VertexType {
    if prev_is_below && next_is_below {
        if turn == Turn::Left {
            VertexType::Start
        } else {
            VertexType::Split
        }
    } else if !prev_is_below && !next_is_below {
        if turn == Turn::Left {
            VertexType::End
        } else {
            VertexType::Merge
        }
    } else if prev_is_below {
        VertexType::RegularLeft
    } else {
        VertexType::RegularRight
    }
}

/// Classifies a vertex from the sweep order of its neighbours and its turn.
pub fn vertex_type(prev_is_below: bool, next_is_below: bool, turn: Turn) -> (t: VertexType)
    ensures
        t == vertex_type_spec(prev_is_below, next_is_below, turn),
{
    if prev_is_below && next_is_below {
        // Both neighbours are below: an interior angle under 180 degrees starts a piece.
        if turn == Turn::Left {
            VertexType::Start
        } else {
            VertexType::Split
        }
    } else if !prev_is_below && !next_is_below {
        // Both neighbours are above.
        if turn == Turn::Left {
            VertexType::End
        } else {
            VertexType::Merge
        }
    } else if prev_is_below {
        // The edge from prev to the vertex goes up: the interior is to its left.
        VertexType::RegularLeft
    } else {
        VertexType::RegularRight
    }
}

/// Classifies vertex `i` of a counter-clockwise `n`-gon into Start, End,
/// Split, Merge or Regular.
fn classify_vertex<G: PolygonGeometry>(i: usize, polygon: &G, n: usize) -> VertexType
    requires
        i < n,
{
    let prev_idx = if i == 0 { n - 1 } else { i - 1 };
    let next_idx = if i + 1 == n { 0 } else { i + 1 };
    let prev_is_below = polygon.is_above(i, prev_idx);
    let next_is_below = polygon.is_above(i, next_idx);
    let turn = polygon.turn(prev_idx, i, next_idx);
    vertex_type(prev_is_below, next_is_below, turn)
}

/// An edge cut by the sweep line, with its current helper vertex.
#[derive(Debug, Clone, Copy, PartialEq, Eq, Structural)]
pub struct ActiveEdge {
    pub edge_idx: usize,
    pub helper: usize,
}

/// The vertex before `v` round an `n`-gon: edge `prev_vertex(v, n)` ends at `v`.
pub open spec fn prev_vertex(v: usize, n: usize) -> usize {
    if v == 0 {
        (n - 1) as usize
    } else {
        (v - 1) as usize
    }
}

/// Edge `e` is cut by the sweep line at position `p` and at no earlier one.
pub open spec fn first_at(active: Seq<ActiveEdge>, e: usize, p: int) -> bool {
    &&& 0 <= p < active.len()
    &&& active[p].edge_idx == e
    &&& forall|j: int| 0 <= j < p ==> (#[trigger] active[j]).edge_idx != e
}

/// Edge `e` is not cut by the sweep line.
pub open spec fn not_cut(active: Seq<ActiveEdge>, e: usize) -> bool {
    forall|j: int| 0 <= j < active.len() ==> (#[trigger] active[j]).edge_idx != e
}

/// The helper `h` as a proposed diagonal end, when it is a merge vertex.
pub open spec fn merge_helper(types: Seq<VertexType>, h: usize) -> Seq<usize> {
    if types[h as int] == VertexType::Merge {
        seq![h]
    } else {
        Seq::empty()
    }
}

/// The edge `pe` ending at the vertex leaves the sweep line (`b`), proposing
/// its helper when that is a merge vertex.
pub open spec fn closes(a: Seq<ActiveEdge>, b: Seq<ActiveEdge>, pe: usize, types: Seq<VertexType>, props: Seq<usize>) -> bool {
    ||| exists|p: int| #[trigger] first_at(a, pe, p) && props == merge_helper(types, a[p].helper) && b == a.remove(p)
    ||| not_cut(a, pe) && props == Seq::<usize>::empty() && b == a
}

/// The edge at position `left` (the one left of the vertex, as the polygon
/// answered) takes `v` as helper, proposing its old helper when that is a
/// merge vertex.
pub open spec fn left_helped(
    a: Seq<ActiveEdge>,
    b: Seq<ActiveEdge>,
    v: usize,
    types: Seq<VertexType>,
    left: Option<usize>,
    props: Seq<usize>,
) -> bool {
    match left {
        Some(q) => (q as int) < a.len() && props == merge_helper(types, a[q as int].helper) && b == a.update(
            q as int,
            ActiveEdge { edge_idx: a[q as int].edge_idx, helper: v },
        ),
        None => props == Seq::<usize>::empty() && b == a,
    }
}

/// The sweep line `a` becomes `b` at vertex `v` of type `t`, and the
/// diagonals from `v` to the vertices `props` are proposed; `left` is the
/// position of the edge left of `v` that the polygon gave, where it was asked.
pub open spec fn event_handled(
    a: Seq<ActiveEdge>,
    b: Seq<ActiveEdge>,
    v: usize,
    t: VertexType,
    types: Seq<VertexType>,
    pe: usize,
    props: Seq<usize>,
    left: Option<usize>,
) -> bool {
    let fresh = ActiveEdge { edge_idx: v, helper: v };
    match t {
        VertexType::Start => b == a.push(fresh) && props == Seq::<usize>::empty(),
        VertexType::End => closes(a, b, pe, types, props),
        VertexType::Split => match left {
            Some(q) => (q as int) < a.len() && props == seq![a[q as int].helper] && b == a.update(
                q as int,
                ActiveEdge { edge_idx: a[q as int].edge_idx, helper: v },
            ).push(fresh),
            None => props == Seq::<usize>::empty() && b == a.push(fresh),
        },
        VertexType::Merge => exists|mid: Seq<ActiveEdge>, p1: Seq<usize>, p2: Seq<usize>|
            #[trigger] closes(a, mid, pe, types, p1) && #[trigger] left_helped(mid, b, v, types, left, p2) && props
                == p1 + p2,
        VertexType::RegularRight => {
            ||| exists|p: int|
                #[trigger] first_at(a, pe, p) && props == merge_helper(types, a[p].helper) && b == a.update(p, fresh)
            ||| not_cut(a, pe) && props == Seq::<usize>::empty() && b == a.push(fresh)
        },
        VertexType::RegularLeft => left_helped(a, b, v, types, left, props),
    }
}

/// Helpers of the edges on the sweep line are vertices of the `n`-gon.
pub open spec fn helpers_below(active: Seq<ActiveEdge>, n: int) -> bool {
    forall|j: int| 0 <= j < active.len() ==> (#[trigger] active[j]).helper < n
}

/// Position of the first active edge with index `e`.
fn find_active(active: &Vec<ActiveEdge>, e: usize) -> (r: Option<usize>)
    ensures
        r matches Some(p) ==> p < active@.len() && active@[p as int].edge_idx == e && forall|j: int|
            0 <= j < p ==> (#[trigger] active@[j]).edge_idx != e,
        r is None ==> forall|j: int| 0 <= j < active@.len() ==> (#[trigger] active@[j]).edge_idx != e,
{
    let mut i: usize = 0;
    while i < active.len()
        invariant
            i <= active@.len(),
            forall|j: int| 0 <= j < i ==> (#[trigger] active@[j]).edge_idx != e,
        decreases active@.len() - i,
    {
        if active[i].edge_idx == e {
            return Some(i);
        }
        i += 1;
    }
    None
}

/// Position of the active edge immediately to the left of vertex `v`.
fn find_left_edge<G: PolygonGeometry>(polygon: &G, active: &Vec<ActiveEdge>, v: usize) -> (r: Option<usize>)
    ensures
        r matches Some(p) ==> p < active@.len(),
        active@.len() == 0 ==> r is None,
{
    let mut edges: Vec<usize> = Vec::new();
    let mut i: usize = 0;
    while i < active.len()
        invariant
            i <= active@.len(),
        decreases active@.len() - i,
    {
        edges.push(active[i].edge_idx);
        i += 1;
    }
    match polygon.edge_left_of(v, edges.as_slice()) {
        Some(p) => if p < active.len() {
            Some(p)
        } else {
            None
        },
        None => None,
    }
}

/// Handles vertex `v` of type `t` in the downward sweep of a counter-clockwise
/// `n`-gon whose vertex types are `types`: updates the edges cut by the sweep
/// line with their helpers, and returns the vertices to which a diagonal from
/// `v` is proposed, with the position of the edge left of `v` that the
/// polygon gave where it was asked.
pub fn sweep_event<G: PolygonGeometry>(
    polygon: &G,
    active: &mut Vec<ActiveEdge>,
    v: usize,
    t: VertexType,
    types: &[VertexType],
    n: usize,
) -> (r: (Vec<usize>, Option<usize>))
    requires
        v < n,
        types@.len() == n,
        helpers_below(old(active)@, n as int),
    ensures
        event_handled(old(active)@, final(active)@, v, t, types@, prev_vertex(v, n), r.0@, r.1),
        helpers_below(final(active)@, n as int),
        forall|k: int| 0 <= k < r.0@.len() ==> #[trigger] r.0@[k] < n,
{
    let ghost a = active@;
    let prev_e = if v == 0 {
        n - 1
    } else {
        v - 1
    };
    let fresh = ActiveEdge { edge_idx: v, helper: v };
    let mut props: Vec<usize> = Vec::new();
    match t {
        VertexType::Start => {
            active.push(fresh);
            (props, None)
        },
        VertexType::End => {
            close_incoming(active, prev_e, types, &mut props, n);
            proof {
                assert(props@.subrange(0, props@.len() as int) =~= props@);
            }
            (props, None)
        },
        VertexType::Split => {
            let left = find_left_edge(polygon, active, v);
            if let Some(q) = left {
                props.push(active[q].helper);
                let edge_idx = active[q].edge_idx;
                active.set(q, ActiveEdge { edge_idx, helper: v });
            }
            active.push(fresh);
            proof {
                if left is Some {
                    assert(props@ =~= seq![a[left->0 as int].helper]);
                } else {
                    assert(props@ =~= Seq::<usize>::empty());
                }
            }
            (props, left)
        },
        VertexType::Merge => {
            close_incoming(active, prev_e, types, &mut props, n);
            proof {
                assert(props@.subrange(0, props@.len() as int) =~= props@);
            }
            let ghost mid = active@;
            let ghost p1 = props@;
            let left = find_left_edge(polygon, active, v);
            left_update(active, left, v, types, &mut props, n);
            proof {
                let p2 = props@.subrange(p1.len() as int, props@.len() as int);
                assert(props@ =~= p1 + p2);
                assert(closes(a, mid, prev_e, types@, p1));
                assert(left_helped(mid, active@, v, types@, left, p2));
            }
            (props, left)
        },
        VertexType::RegularRight => {
            if let Some(pos) = find_active(active, prev_e) {
                let helper = active[pos].helper;
                if types[helper] == VertexType::Merge {
                    props.push(helper);
                }
                active.set(pos, fresh);
                proof {
                    assert(first_at(a, prev_e, pos as int));
                    assert(props@ =~= merge_helper(types@, a[pos as int].helper));
                }
            } else {
                active.push(fresh);
                proof {
                    assert(props@ =~= Seq::<usize>::empty());
                }
            }
            (props, None)
        },
        VertexType::RegularLeft => {
            let left = find_left_edge(polygon, active, v);
            left_update(active, left, v, types, &mut props, n);
            proof {
                assert(props@.subrange(0, props@.len() as int) =~= props@);
            }
            (props, left)
        },
    }
}

/// The incoming edge `pe` leaves the sweep line; its helper is proposed when
/// it is a merge vertex.
fn close_incoming(active: &mut Vec<ActiveEdge>, pe: usize, types: &[VertexType], props: &mut Vec<usize>, n: usize)
    requires
        types@.len() == n,
        helpers_below(old(active)@, n as int),
        forall|k: int| 0 <= k < old(props)@.len() ==> #[trigger] old(props)@[k] < n,
    ensures
        closes(
            old(active)@,
            final(active)@,
            pe,
            types@,
            final(props)@.subrange(old(props)@.len() as int, final(props)@.len() as int),
        ),
        final(props)@.len() >= old(props)@.len(),
        final(props)@.subrange(0, old(props)@.len() as int) == old(props)@,
        helpers_below(final(active)@, n as int),
        forall|k: int| 0 <= k < final(props)@.len() ==> #[trigger] final(props)@[k] < n,
{
    let ghost a = active@;
    let ghost p0 = props@;
    if let Some(pos) = find_active(active, pe) {
        let helper = active[pos].helper;
        if types[helper] == VertexType::Merge {
            props.push(helper);
        }
        active.remove(pos);
        proof {
            assert(first_at(a, pe, pos as int));
            assert(props@.subrange(p0.len() as int, props@.len() as int) =~= merge_helper(types@, a[pos as int].helper));
            assert(props@.subrange(0, p0.len() as int) =~= p0);
            assert forall|j: int| 0 <= j < active@.len() implies (#[trigger] active@[j]).helper < n by {
                if j < pos {
                    assert(active@[j] == a[j]);
                } else {
                    assert(active@[j] == a[j + 1]);
                }
            }
        }
    } else {
        proof {
            assert(props@.subrange(p0.len() as int, props@.len() as int) =~= Seq::<usize>::empty());
            assert(props@.subrange(0, p0.len() as int) =~= p0);
        }
    }
}

/// The edge at position `left` takes `v` as helper; its old helper is
/// proposed when it is a merge vertex.
fn left_update(
    active: &mut Vec<ActiveEdge>,
    left: Option<usize>,
    v: usize,
    types: &[VertexType],
    props: &mut Vec<usize>,
    n: usize,
)
    requires
        v < n,
        types@.len() == n,
        helpers_below(old(active)@, n as int),
        forall|k: int| 0 <= k < old(props)@.len() ==> #[trigger] old(props)@[k] < n,
        left matches Some(q) ==> q < old(active)@.len(),
    ensures
        left_helped(
            old(active)@,
            final(active)@,
            v,
            types@,
            left,
            final(props)@.subrange(old(props)@.len() as int, final(props)@.len() as int),
        ),
        final(props)@.len() >= old(props)@.len(),
        final(props)@.subrange(0, old(props)@.len() as int) == old(props)@,
        helpers_below(final(active)@, n as int),
        forall|k: int| 0 <= k < final(props)@.len() ==> #[trigger] final(props)@[k] < n,
{
    let ghost a = active@;
    let ghost p0 = props@;
    if let Some(q) = left {
        let helper = active[q].helper;
        if types[helper] == VertexType::Merge {
            props.push(helper);
        }
        let edge_idx = active[q].edge_idx;
        active.set(q, ActiveEdge { edge_idx, helper: v });
        proof {
            assert(props@.subrange(p0.len() as int, props@.len() as int) =~= merge_helper(types@, a[q as int].helper));
        }
    } else {
        proof {
            assert(props@.subrange(p0.len() as int, props@.len() as int) =~= Seq::<usize>::empty());
        }
    }
    proof {
        assert(props@.subrange(0, p0.len() as int) =~= p0);
    }
}

/// An edge is cut by the sweep line at one first position only.
proof fn lemma_first_at_unique(a: Seq<ActiveEdge>, e: usize, p: int, q: int)
    requires
        first_at(a, e, p),
        first_at(a, e, q),
    ensures
        p == q,
{
    if p < q {
        assert(a[p].edge_idx == e);
    } else if q < p {
        assert(a[q].edge_idx == e);
    }
}

/// At an end, merge or regular vertex with the interior to its right, the
/// edge ending at the vertex leaves the sweep line; when its helper is a
/// merge vertex, a diagonal from the vertex to that helper is proposed. This
/// is what joins each merge vertex to the piece below it, so that every piece
/// is y-monotone.
pub proof fn lemma_incoming_merge_helper_joined(
    a: Seq<ActiveEdge>,
    b: Seq<ActiveEdge>,
    v: usize,
    t: VertexType,
    types: Seq<VertexType>,
    pe: usize,
    props: Seq<usize>,
    left: Option<usize>,
    p: int,
)
    requires
        event_handled(a, b, v, t, types, pe, props, left),
        t == VertexType::End || t == VertexType::Merge || t == VertexType::RegularRight,
        first_at(a, pe, p),
        (a[p].helper as int) < types.len(),
        types[a[p].helper as int] == VertexType::Merge,
    ensures
        props.contains(a[p].helper),
        t == VertexType::End ==> b.len() == a.len() - 1 && b == a.remove(p),
        t == VertexType::RegularRight ==> b.len() == a.len() && b[p] == (ActiveEdge { edge_idx: v, helper: v }),
{
    let h = a[p].helper;
    if t == VertexType::RegularRight {
        let q = choose|q: int|
            #[trigger] first_at(a, pe, q) && props == merge_helper(types, a[q].helper) && b == a.update(
                q,
                ActiveEdge { edge_idx: v, helper: v },
            );
        lemma_first_at_unique(a, pe, p, q);
        assert(props[0] == h);
    } else {
        let p1 = if t == VertexType::End {
            props
        } else {
            let (mid, p1, p2) = choose|mid: Seq<ActiveEdge>, p1: Seq<usize>, p2: Seq<usize>|
                #[trigger] closes(a, mid, pe, types, p1) && #[trigger] left_helped(mid, b, v, types, left, p2)
                    && props == p1 + p2;
            p1
        };
        assert(exists|mid: Seq<ActiveEdge>| closes(a, mid, pe, types, p1));
        let mid = choose|mid: Seq<ActiveEdge>| closes(a, mid, pe, types, p1);
        assert(!not_cut(a, pe)) by {
            assert(a[p].edge_idx == pe);
        }
        let q = choose|q: int| #[trigger] first_at(a, pe, q) && p1 == merge_helper(types, a[q].helper) && mid == a.remove(q);
        lemma_first_at_unique(a, pe, p, q);
        assert(p1[0] == h);
        assert(p1.contains(h));
        if t == VertexType::Merge {
            let (mid2, p1b, p2) = choose|mid: Seq<ActiveEdge>, p1: Seq<usize>, p2: Seq<usize>|
                #[trigger] closes(a, mid, pe, types, p1) && #[trigger] left_helped(mid, b, v, types, left, p2)
                    && props == p1 + p2;
            assert(p1b == p1);
            assert(props[0] == h);
        }
    }
}

/// A split vertex is always joined to the helper of the edge left of it, and
/// becomes that edge's helper; the edge leaving it enters the sweep line.
pub proof fn lemma_split_joined_to_left_helper(
    a: Seq<ActiveEdge>,
    b: Seq<ActiveEdge>,
    v: usize,
    types: Seq<VertexType>,
    pe: usize,
    props: Seq<usize>,
    q: usize,
)
    requires
        event_handled(a, b, v, VertexType::Split, types, pe, props, Some(q)),
    ensures
        props.contains(a[q as int].helper),
        b[q as int].helper == v,
        b.len() == a.len() + 1,
        b.last() == (ActiveEdge { edge_idx: v, helper: v }),
{
    assert(props[0] == a[q as int].helper);
}

/// At a regular vertex with the interior to its left, the edge left of it
/// takes the vertex as helper, and its old helper is joined to the vertex
/// when that is a merge vertex.
pub proof fn lemma_left_merge_helper_joined(
    a: Seq<ActiveEdge>,
    b: Seq<ActiveEdge>,
    v: usize,
    types: Seq<VertexType>,
    pe: usize,
    props: Seq<usize>,
    q: usize,
)
    requires
        event_handled(a, b, v, VertexType::RegularLeft, types, pe, props, Some(q)),
        (a[q as int].helper as int) < types.len(),
    ensures
        types[a[q as int].helper as int] == VertexType::Merge ==> props.contains(a[q as int].helper),
        b[q as int].helper == v,
        b.len() == a.len(),
{
    if types[a[q as int].helper as int] == VertexType::Merge {
        assert(props[0] == a[q as int].helper);
    }
}

/// Whether `d` is among `diags`.
pub fn contains_diagonal(diags: &Vec<Diagonal>, d: Diagonal) -> (r: bool)
    ensures
        r == diags@.contains(d),
{
    let mut i: usize = 0;
    while i < diags.len()
        invariant
            i <= diags@.len(),
            forall|j: int| 0 <= j < i ==> diags@[j] != d,
        decreases diags@.len() - i,
    {
        if diags[i] == d {
            return true;
        }
        i += 1;
    }
    false
}

/// The diagonals found so far: each joins two distinct, non-adjacent vertices
/// of the `n`-gon, and none is listed twice.
pub open spec fn sweep_diagonals_ok(diags: Seq<Diagonal>, n: int) -> bool {
    &&& diags.no_duplicates()
    &&& forall|k: int| 0 <= k < diags.len() ==> {
        let d = #[trigger] diags[k];
        &&& d.u < d.v < n
        &&& cyclic_next(d.u as int, n) != d.v
        &&& cyclic_next(d.v as int, n) != d.u
    }
}

/// The vertex after `i` round an `n`-gon.
pub open spec fn cyclic_next(i: int, n: int) -> int {
    if i + 1 == n {
        0
    } else {
        i + 1
    }
}

/// `u` and `v` are distinct, not neighbours round the `n`-gon, and their
/// diagonal is not among `diags`.
pub open spec fn diagonal_candidate(u: usize, v: usize, diags: Seq<Diagonal>, n: int) -> bool {
    &&& u != v
    &&& cyclic_next(u as int, n) != v
    &&& cyclic_next(v as int, n) != u
    &&& !diags.contains(Diagonal::new_spec(u, v))
}

/// Records the diagonal between `u` and `v` when they are distinct,
/// non-adjacent, not yet recorded and the segment is a valid diagonal.
fn add_diagonal<G: PolygonGeometry>(u: usize, v: usize, diags: &mut Vec<Diagonal>, polygon: &G, n: usize)
    requires
        u < n,
        v < n,
        sweep_diagonals_ok(old(diags)@, n as int),
    ensures
        sweep_diagonals_ok(final(diags)@, n as int),
        final(diags)@ == old(diags)@ || final(diags)@ == old(diags)@.push(Diagonal::new_spec(u, v)),
        final(diags)@ != old(diags)@ ==> diagonal_candidate(u, v, old(diags)@, n as int),
        !diagonal_candidate(u, v, old(diags)@, n as int) ==> final(diags)@ == old(diags)@,
{
    let nu = if u + 1 == n { 0 } else { u + 1 };
    let nv = if v + 1 == n { 0 } else { v + 1 };
    if u != v && nu != v && nv != u {
        let d = Diagonal::new(u, v);
        if !contains_diagonal(diags, d) && polygon.is_valid_diagonal(u, v) {
            proof {
                let s = diags@.push(d);
                assert forall|a: int, b: int| 0 <= a < s.len() && 0 <= b < s.len() && a != b
                    implies #[trigger] s[a] != #[trigger] s[b] by {
                    if a == diags@.len() {
                        assert(s[b] == diags@[b]);
                    } else if b == diags@.len() {
                        assert(s[a] == diags@[a]);
                    } else {
                        assert(s[a] == diags@[a]);
                        assert(s[b] == diags@[b]);
                    }
                }
                assert forall|k: int| 0 <= k < s.len() implies {
                    let e = #[trigger] s[k];
                    &&& e.u < e.v < n
                    &&& cyclic_next(e.u as int, n as int) != e.v
                    &&& cyclic_next(e.v as int, n as int) != e.u
                } by {
                    if k < diags@.len() {
                        assert(s[k] == diags@[k]);
                    }
                }
            }
            diags.push(d);
        }
    }
}

/// Triangulates a simple polygon with the classic O(n log n) plane-sweep
/// monotone decomposition.
pub fn triangulate_monotone_sweep<G: PolygonGeometry>(polygon: &G, n: usize) -> (r: Result<
    Vec<[usize; 3]>,
    TriangulationError,
>)
    ensures
        n < 3 <==> r == Err::<Vec<[usize; 3]>, TriangulationError>(
            TriangulationError::PolygonTooSmall,
        ),
        n == 3 ==> (r matches Ok(t) && t@ == seq![[0usize, 1usize, 2usize]]),
        r matches Ok(t) ==> t@.len() == n - 2 && triangles_within(t@, n as int),
        n >= 3 ==> (r matches Err(e) ==> (e is DegeneratePolygon || e is InternalError)),
{
    crate::triangulate_oriented(polygon, n, crate::Algorithm::MonotoneSweep)
}

/// The sweep of a counter-clockwise `n`-gon: classifies the vertices, visits
/// them from the top down keeping the edges cut by the sweep line with their
/// helpers, records a diagonal at every split vertex and at every vertex whose
/// helper is a merge vertex, then triangulates the monotone pieces.
pub fn monotone_sweep_ccw<G: PolygonGeometry>(polygon: &G, n: usize) -> (r: Result<
    Vec<[usize; 3]>,
    TriangulationError,
>)
    requires
        n >= 3,
    ensures
        r matches Ok(t) ==> t@.len() == n - 2 && triangles_within(t@, n as int),
        r matches Err(e) ==> e is InternalError,
{
    // 1. Classify all vertices.
    let mut vertex_types: Vec<VertexType> = Vec::with_capacity(n);
    let mut i: usize = 0;
    while i < n
        invariant
            i <= n,
            vertex_types@.len() == i,
        decreases n - i,
    {
        vertex_types.push(classify_vertex(i, polygon, n));
        i += 1;
    }
    // 2. Order the vertices for the sweep: decreasing y, ties by increasing x.

    let all = identity_order(n);
    let event_order = crate::sorting::sorted_positions(polygon, &crate::sorting::SortKey::Vertices(all.as_slice()));
    let mut diagonals: Vec<Diagonal> = Vec::new();
    let mut active_edges: Vec<ActiveEdge> = Vec::new();
    let mut k: usize = 0;
    while k < n
        invariant
            k <= n,
            vertex_types@.len() == n,
            is_arrangement(event_order@, n as int),
            sweep_diagonals_ok(diagonals@, n as int),
            helpers_below(active_edges@, n as int),
        decreases n - k,
    {
        let v_idx = event_order[k];
        let v_type = vertex_types[v_idx];
        let (helpers, _) = sweep_event(polygon, &mut active_edges, v_idx, v_type, vertex_types.as_slice(), n);
        let mut h: usize = 0;
        while h < helpers.len()
            invariant
                h <= helpers@.len(),
                v_idx < n,
                forall|j: int| 0 <= j < helpers@.len() ==> #[trigger] helpers@[j] < n,
                sweep_diagonals_ok(diagonals@, n as int),
            decreases helpers@.len() - h,
        {
            add_diagonal(v_idx, helpers[h], &mut diagonals, polygon, n);
            h += 1;
        }
        k += 1;
    }
    // 3. Decompose along the diagonals and triangulate each monotone piece.
    triangulate_subpolygons_with_diagonals(polygon, n, diagonals.as_slice())
}

/// Decomposes the polygon into subpolygons along the diagonals and
/// triangulates each y-monotone piece.
fn triangulate_subpolygons_with_diagonals<G: PolygonGeometry>(
    polygon: &G,
    n: usize,
    diagonals: &[Diagonal],
) -> (r: Result<Vec<[usize; 3]>, TriangulationError>)
    requires
        n >= 3,
    ensures
        r matches Ok(t) ==> t@.len() == n - 2 && triangles_within(t@, n as int),
        r matches Err(e) ==> e is InternalError,
{
    let subpolys = split_along_diagonals(n, diagonals);
    let mut all_triangles: Vec<[usize; 3]> = Vec::new();
    let mut i: usize = 0;
    while i < subpolys.len()
        invariant
            i <= subpolys@.len(),
            valid_pieces(piece_views(subpolys@), n as int),
            triangles_within(all_triangles@, n as int),
        decreases subpolys@.len() - i,
    {
        let sub = &subpolys[i];
        proof {
            assert(piece_views(subpolys@)[i as int] == sub@);
            assert(valid_piece(piece_views(subpolys@)[i as int], n as int));
        }
        let mut tris = triangulate_monotone_piece(polygon, sub.as_slice())?;
        proof {
            crate::monotone::lemma_piece_triangles_valid(tris@, sub@, n as int);
            crate::monotone::lemma_valid_triangles_append(all_triangles@, tris@, n as int);
        }
        all_triangles.append(&mut tris);
        i += 1;
    }
    if all_triangles.len() != n - 2 {
        return Err(TriangulationError::InternalError(crate::monotone::triangle_count_message("Monotone sweep: expected", n - 2, all_triangles.len())));
    }
    Ok(all_triangles)
}

} // verus!
