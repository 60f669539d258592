//! Horizontal chord directions and the double boundary of a subchain.
use vstd::prelude::*;

verus! {

/// Direction of a horizontal chord from a vertex.
#[derive(Debug, Clone, Copy, PartialEq, Eq, Structural)]
pub enum ChordDirection {
    Left,
    Right,
}

impl ChordDirection {
    pub fn is_right(&self) -> (r: bool)
        ensures
            r <==> *self == ChordDirection::Right,
    {
        match self {
            ChordDirection::Left => false,
            ChordDirection::Right => true,
        }
    }
}

/// A chord specification: the vertex it starts from and its direction.
#[derive(Debug, Clone, Copy, PartialEq, Eq, Structural)]
pub struct VertexChordSpec {
    pub vertex_idx: usize,
    pub direction: ChordDirection,
}

/// The double boundary of the subchain from `chain_start` to `chain_end`
/// (cyclically) of the polygon whose vertices are `vertices`.
#[derive(Debug, Clone)]
pub struct DoubleBoundary<'a, P> {
    pub vertices: &'a [P],
    pub chain_start: usize,
    pub chain_end: usize,
}

impl<'a, P: Copy> DoubleBoundary<'a, P> {
    pub fn new(vertices: &'a [P], chain_start: usize, chain_end: usize) -> (b: Self)
        ensures
            b.vertices@ == vertices@,
            b.chain_start == chain_start,
            b.chain_end == chain_end,
    {
        Self { vertices, chain_start, chain_end }
    }

    /// Number of edges in the subchain, counted cyclically from its start to its end.
    pub fn num_edges(&self) -> (k: usize)
        requires
            self.chain_end < self.chain_start ==> self.chain_start <= self.vertices@.len()
                && self.vertices@.len() - self.chain_start + self.chain_end <= usize::MAX,
        ensures
            k == if self.chain_end >= self.chain_start {
                self.chain_end - self.chain_start
            } else {
                self.vertices@.len() - self.chain_start + self.chain_end
            },
    {
        if self.chain_end >= self.chain_start {
            self.chain_end - self.chain_start
        } else {
            (self.vertices.len() - self.chain_start) + self.chain_end
        }
    }

    /// The vertex at offset `i` along the subchain.
    pub fn vertex(&self, i: usize) -> (p: P)
        requires
            self.vertices@.len() > 0,
            self.chain_start + i <= usize::MAX,
        ensures
            p == self.vertices@[((self.chain_start + i) % (self.vertices@.len() as int))],
    {
        let n = self.vertices.len();
        self.vertices[(self.chain_start + i) % n]
    }
}

} // verus!
