//! The arc-cutting oracle (Chazelle, Section 3.4) and the slab index behind
//! the ray-shooting oracle: the edges of the boundary bucketed by the
//! horizontal slabs they cross. The ray-shooting oracle itself works on
//! coordinates and is reached through [`crate::geometry::PolygonGeometry`].
use vstd::prelude::*;

verus! {

/// Arc-cutting oracle: partitions an arc of a submap into canonical subchains.
pub struct ArcCuttingOracle;

/// `chunks` cut the `num_edges` edges from `start_edge` into consecutive
/// pieces of `size` edges, the last one possibly shorter.
pub open spec fn cuts_arc(chunks: Seq<(usize, usize)>, start_edge: int, num_edges: int, size: int) -> bool {
    &&& num_edges == 0 <==> chunks.len() == 0
    &&& forall|k: int| 0 <= k < chunks.len() ==> (#[trigger] chunks[k]).0 == start_edge + k * size
    &&& forall|k: int| 0 <= k < chunks.len() - 1 ==> (#[trigger] chunks[k]).1 == size
    &&& chunks.len() > 0 ==> 1 <= chunks.last().1 <= size
    &&& chunks.len() > 0 ==> chunks.last().0 + chunks.last().1 == start_edge + num_edges
}

impl ArcCuttingOracle {
    /// Cuts the subchain `[start_edge, start_edge + num_edges)` into chunks of
    /// at most `max_chunk_size` edges (at least one).
    pub fn cut_arc(start_edge: usize, num_edges: usize, max_chunk_size: usize) -> (chunks: Vec<(usize, usize)>)
        requires
            start_edge + num_edges <= usize::MAX,
        ensures
            cuts_arc(
                chunks@,
                start_edge as int,
                num_edges as int,
                if max_chunk_size >= 1 {
                    max_chunk_size as int
                } else {
                    1
                },
            ),
    {
        let mut chunks: Vec<(usize, usize)> = Vec::new();
        let chunk_size = if max_chunk_size >= 1 {
            max_chunk_size
        } else {
            1
        };
        let mut rem = num_edges;
        let mut curr = start_edge;
        while rem > 0
            invariant
                start_edge + num_edges <= usize::MAX,
                chunk_size >= 1,
                chunk_size == (if max_chunk_size >= 1 {
                    max_chunk_size as int
                } else {
                    1
                }),
                curr + rem == start_edge + num_edges,
                curr == start_edge + chunks@.len() * chunk_size,
                chunks@.len() == 0 <==> rem == num_edges,
                rem < num_edges ==> chunks@.len() > 0,
                forall|k: int|
                    0 <= k < chunks@.len() ==> (#[trigger] chunks@[k]).0 == start_edge + k * chunk_size,
                forall|k: int| 0 <= k < chunks@.len() ==> (#[trigger] chunks@[k]).1 == chunk_size,
            decreases rem,
        {
            let take = if rem < chunk_size {
                rem
            } else {
                chunk_size
            };
            let ghost before = chunks@;
            chunks.push((curr, take));
            if take < chunk_size {
                // The last, shorter chunk.
                proof {
                    assert(rem - take == 0);
                    let s = chunks@;
                    assert forall|k: int| 0 <= k < s.len() - 1 implies (#[trigger] s[k]).1 == chunk_size by {
                        assert(s[k] == before[k]);
                    }
                    assert forall|k: int| 0 <= k < s.len() implies (#[trigger] s[k]).0 == start_edge + k * chunk_size by {
                        if k < before.len() {
                            assert(s[k] == before[k]);
                        }
                    }
                }
                return chunks;
            }
            proof {
                let s = chunks@;
                vstd::arithmetic::mul::lemma_mul_is_distributive_add_other_way(
                    chunk_size as int,
                    before.len() as int,
                    1,
                );
                assert forall|k: int| 0 <= k < s.len() implies (#[trigger] s[k]).0 == start_edge + k * chunk_size
                    && s[k].1 == chunk_size by {
                    if k < before.len() {
                        assert(s[k] == before[k]);
                    }
                }
            }
            curr += take;
            rem -= take;
        }
        proof {
            let s = chunks@;
            if s.len() > 0 {
                assert(s.last() == s[s.len() - 1]);
                vstd::arithmetic::mul::lemma_mul_is_distributive_add_other_way(
                    chunk_size as int,
                    (s.len() - 1) as int,
                    1,
                );
            }
        }
        chunks
    }
}

/// The edges whose slab range `[lo, hi]` (entry `e` of `ranges` for edge `e`)
/// covers slab `b`, in increasing order.
pub open spec fn bin_members(ranges: Seq<(usize, usize)>, b: int) -> Seq<usize>
    decreases ranges.len(),
{
    if ranges.len() == 0 {
        Seq::empty()
    } else {
        let rest = bin_members(ranges.drop_last(), b);
        if ranges.last().0 <= b <= ranges.last().1 {
            rest.push((ranges.len() - 1) as usize)
        } else {
            rest
        }
    }
}

/// `offsets` and `edges` list the members of the `num_bins` slabs one slab
/// after the other: those of slab `b` fill `edges[offsets[b]..offsets[b + 1]]`.
pub open spec fn bucketed(
    offsets: Seq<usize>,
    edges: Seq<usize>,
    ranges: Seq<(usize, usize)>,
    num_bins: int,
) -> bool {
    &&& offsets.len() == num_bins + 1
    &&& offsets[0] == 0
    &&& offsets[num_bins] == edges.len()
    &&& forall|i: int, j: int| 0 <= i <= j <= num_bins ==> #[trigger] offsets[i] <= #[trigger] offsets[j]
    &&& forall|b: int|
        0 <= b < num_bins ==> edges.subrange(offsets[b] as int, offsets[b + 1] as int) == #[trigger] bin_members(
            ranges,
            b,
        )
}

/// The sum of the first `k` counts.
pub open spec fn prefix_sum(counts: Seq<usize>, k: int) -> int
    decreases k,
{
    if k <= 0 {
        0
    } else {
        prefix_sum(counts, k - 1) + counts[k - 1]
    }
}

proof fn lemma_members_len(ranges: Seq<(usize, usize)>, b: int)
    ensures
        bin_members(ranges, b).len() <= ranges.len(),
    decreases ranges.len(),
{
    if ranges.len() > 0 {
        lemma_members_len(ranges.drop_last(), b);
    }
}

/// One more edge adds itself to the slabs it covers.
proof fn lemma_members_step(ranges: Seq<(usize, usize)>, e: int, b: int)
    requires
        0 <= e < ranges.len(),
        ranges.len() <= usize::MAX,
    ensures
        bin_members(ranges.take(e + 1), b) == if ranges[e].0 <= b <= ranges[e].1 {
            bin_members(ranges.take(e), b).push(e as usize)
        } else {
            bin_members(ranges.take(e), b)
        },
{
    assert(ranges.take(e + 1).drop_last() =~= ranges.take(e));
    assert(ranges.take(e + 1).last() == ranges[e]);
}

/// The members of a slab among the first `i` edges begin its members among all.
proof fn lemma_members_prefix(ranges: Seq<(usize, usize)>, i: int, b: int)
    requires
        0 <= i <= ranges.len(),
    ensures
        bin_members(ranges.take(i), b).len() <= bin_members(ranges, b).len(),
        bin_members(ranges, b).take(bin_members(ranges.take(i), b).len() as int) == bin_members(
            ranges.take(i),
            b,
        ),
    decreases ranges.len(),
{
    if i == ranges.len() {
        assert(ranges.take(i) =~= ranges);
        assert(bin_members(ranges, b).take(bin_members(ranges, b).len() as int) =~= bin_members(ranges, b));
    } else {
        let rest = ranges.drop_last();
        assert(rest.take(i) =~= ranges.take(i));
        lemma_members_prefix(rest, i, b);
        let m = bin_members(rest, b);
        let k = bin_members(ranges.take(i), b).len() as int;
        if ranges.last().0 <= b <= ranges.last().1 {
            assert(m.push((ranges.len() - 1) as usize).take(k) =~= m.take(k));
        }
    }
}

proof fn lemma_prefix_sum_bounds(counts: Seq<usize>, k: int, n: int)
    requires
        0 <= k <= counts.len(),
        0 <= n,
        forall|i: int| 0 <= i < counts.len() ==> #[trigger] counts[i] <= n,
    ensures
        0 <= prefix_sum(counts, k) <= k * n,
    decreases k,
{
    if k == 0 {
        assert(0 * n == 0);
    } else {
        lemma_prefix_sum_bounds(counts, k - 1, n);
        assert((k - 1) * n + n == k * n) by (nonlinear_arith);
    }
}

proof fn lemma_prefix_sum_monotone(counts: Seq<usize>, i: int, j: int)
    requires
        0 <= i <= j <= counts.len(),
    ensures
        prefix_sum(counts, i) <= prefix_sum(counts, j),
    decreases j - i,
{
    if i < j {
        lemma_prefix_sum_monotone(counts, i, j - 1);
    }
}

/// The number of edges in each of the `num_bins` slabs.
fn count_bin_members(ranges: &[(usize, usize)], num_bins: usize) -> (counts: Vec<usize>)
    requires
        forall|e: int| 0 <= e < ranges@.len() ==> (#[trigger] ranges@[e]).1 < num_bins,
        num_bins < usize::MAX,
    ensures
        counts@.len() == num_bins,
        forall|b: int| 0 <= b < num_bins ==> #[trigger] counts@[b] == bin_members(ranges@, b).len(),
{
    let n = ranges.len();
    let mut counts: Vec<usize> = Vec::with_capacity(num_bins);
    let mut b: usize = 0;
    while b < num_bins
        invariant
            b <= num_bins,
            counts@.len() == b,
            forall|c: int| 0 <= c < b ==> #[trigger] counts@[c] == 0,
        decreases num_bins - b,
    {
        counts.push(0);
        b += 1;
    }
    assert(ranges@.take(0) =~= Seq::<(usize, usize)>::empty());
    let mut e: usize = 0;
    while e < n
        invariant
            e <= n == ranges@.len(),
            num_bins < usize::MAX,
            forall|e2: int| 0 <= e2 < ranges@.len() ==> (#[trigger] ranges@[e2]).1 < num_bins,
            counts@.len() == num_bins,
            forall|c: int| 0 <= c < num_bins ==> #[trigger] counts@[c] == bin_members(ranges@.take(e as int), c).len(),
        decreases n - e,
    {
        let (lo, hi) = ranges[e];
        assert(ranges@[e as int] == (lo, hi));
        assert forall|c: int| 0 <= c < num_bins implies bin_members(ranges@.take(e + 1), c) == if lo <= c <= hi {
            bin_members(ranges@.take(e as int), c).push(e)
        } else {
            bin_members(ranges@.take(e as int), c)
        } by {
            lemma_members_step(ranges@, e as int, c);
        }
        if lo <= hi {
            let mut b = lo;
            while b <= hi
                invariant
                    lo <= b <= hi + 1,
                    hi < num_bins < usize::MAX,
                    e < n == ranges@.len(),
                    counts@.len() == num_bins,
                    forall|c: int|
                        0 <= c < num_bins ==> #[trigger] counts@[c] == if lo <= c < b {
                            bin_members(ranges@.take(e + 1), c).len()
                        } else {
                            bin_members(ranges@.take(e as int), c).len()
                        },
                    forall|c: int| 0 <= c < num_bins ==> bin_members(ranges@.take(e + 1), c) == if lo <= c <= hi {
                        bin_members(ranges@.take(e as int), c).push(e)
                    } else {
                        bin_members(ranges@.take(e as int), c)
                    },
                decreases hi + 1 - b,
            {
                proof {
                    lemma_members_len(ranges@.take(e as int), b as int);
                }
                let c = counts[b];
                counts.set(b, c + 1);
                b += 1;
            }
        }
        e += 1;
    }
    assert(ranges@.take(n as int) =~= ranges@);
    counts
}

/// Buckets the edges of the boundary by the horizontal slabs they cross:
/// entry `e` of `ranges` is the range `[lo, hi]` of slabs that edge `e`
/// crosses (empty when `lo > hi`). The slabs' members are counted, the counts
/// summed into offsets, and each edge written into each of its slabs in turn.
pub fn bucket_edges(ranges: &[(usize, usize)], num_bins: usize) -> (r: (Vec<usize>, Vec<usize>))
    requires
        forall|e: int| 0 <= e < ranges@.len() ==> (#[trigger] ranges@[e]).1 < num_bins,
        num_bins < usize::MAX,
        ranges@.len() * num_bins <= usize::MAX,
    ensures
        bucketed(r.0@, r.1@, ranges@, num_bins as int),
{
    let n = ranges.len();
    let counts = count_bin_members(ranges, num_bins);
    proof {
        assert forall|i: int| 0 <= i < counts@.len() implies #[trigger] counts@[i] <= n by {
            lemma_members_len(ranges@, i);
        }
    }
    // Prefix sums give the offsets.
    let mut offsets: Vec<usize> = Vec::with_capacity(num_bins + 1);
    offsets.push(0);
    let mut total: usize = 0;
    let mut b: usize = 0;
    while b < num_bins
        invariant
            b <= num_bins == counts@.len(),
            n == ranges@.len(),
            n * num_bins <= usize::MAX,
            forall|i: int| 0 <= i < counts@.len() ==> #[trigger] counts@[i] <= n,
            offsets@.len() == b + 1,
            total == prefix_sum(counts@, b as int),
            forall|i: int| 0 <= i <= b ==> #[trigger] offsets@[i] == prefix_sum(counts@, i),
        decreases num_bins - b,
    {
        proof {
            lemma_prefix_sum_bounds(counts@, b + 1, n as int);
            assert((b + 1) * n <= num_bins * n) by (nonlinear_arith)
                requires
                    b + 1 <= num_bins,
            ;
        }
        total = total + counts[b];
        offsets.push(total);
        b += 1;
    }
    proof {
        assert(offsets@[num_bins as int] == total);
        assert forall|i: int, j: int| 0 <= i <= j <= num_bins implies #[trigger] offsets@[i]
            <= #[trigger] offsets@[j] by {
            lemma_prefix_sum_monotone(counts@, i, j);
        }
    }
    // Each edge is written into each of its slabs, at the slab's cursor.
    let mut edges: Vec<usize> = Vec::with_capacity(total);
    let mut k: usize = 0;
    while k < total
        invariant
            k <= total,
            edges@.len() == k,
        decreases total - k,
    {
        edges.push(0);
        k += 1;
    }
    let mut cursor: Vec<usize> = Vec::with_capacity(num_bins);
    let mut b: usize = 0;
    while b < num_bins
        invariant
            b <= num_bins,
            offsets@.len() == num_bins + 1,
            cursor@.len() == b,
            forall|c: int| 0 <= c < b ==> #[trigger] cursor@[c] == offsets@[c],
        decreases num_bins - b,
    {
        cursor.push(offsets[b]);
        b += 1;
    }
    assert(ranges@.take(0) =~= Seq::<(usize, usize)>::empty());
    proof {
        assert forall|c: int| 0 <= c < num_bins implies edges@.subrange(
            offsets@[c] as int,
            #[trigger] cursor@[c] as int,
        ) == bin_members(ranges@.take(0), c) by {
            assert(offsets@[c] <= offsets@[num_bins as int]);
            assert(edges@.subrange(offsets@[c] as int, cursor@[c] as int) =~= Seq::<usize>::empty());
        }
    }
    let mut e: usize = 0;
    while e < n
        invariant
            e <= n == ranges@.len(),
            num_bins < usize::MAX,
            forall|e2: int| 0 <= e2 < ranges@.len() ==> (#[trigger] ranges@[e2]).1 < num_bins,
            counts@.len() == num_bins,
            forall|c: int| 0 <= c < num_bins ==> #[trigger] counts@[c] == bin_members(ranges@, c).len(),
            offsets@.len() == num_bins + 1,
            offsets@[num_bins as int] == total,
            forall|i: int| 0 <= i <= num_bins ==> #[trigger] offsets@[i] == prefix_sum(counts@, i),
            forall|i: int, j: int| 0 <= i <= j <= num_bins ==> #[trigger] offsets@[i] <= #[trigger] offsets@[j],
            edges@.len() == total,
            cursor@.len() == num_bins,
            forall|c: int|
                0 <= c < num_bins ==> #[trigger] cursor@[c] == offsets@[c] + bin_members(
                    ranges@.take(e as int),
                    c,
                ).len(),
            forall|c: int|
                0 <= c < num_bins ==> edges@.subrange(offsets@[c] as int, #[trigger] cursor@[c] as int)
                    == bin_members(ranges@.take(e as int), c),
        decreases n - e,
    {
        let (lo, hi) = ranges[e];
        assert(ranges@[e as int] == (lo, hi));
        assert forall|c: int| 0 <= c < num_bins implies bin_members(ranges@.take(e + 1), c) == if lo <= c <= hi {
            bin_members(ranges@.take(e as int), c).push(e)
        } else {
            bin_members(ranges@.take(e as int), c)
        } by {
            lemma_members_step(ranges@, e as int, c);
        }
        if lo <= hi {
            let mut b = lo;
            while b <= hi
                invariant
                    lo <= b <= hi + 1,
                    hi < num_bins < usize::MAX,
                    e < n == ranges@.len(),
                    counts@.len() == num_bins,
                    forall|c: int| 0 <= c < num_bins ==> #[trigger] counts@[c] == bin_members(ranges@, c).len(),
                    offsets@.len() == num_bins + 1,
                    forall|i: int| 0 <= i <= num_bins ==> #[trigger] offsets@[i] == prefix_sum(counts@, i),
                    forall|i: int, j: int|
                        0 <= i <= j <= num_bins ==> #[trigger] offsets@[i] <= #[trigger] offsets@[j],
                    edges@.len() == total,
                    offsets@[num_bins as int] == total,
                    cursor@.len() == num_bins,
                    forall|c: int|
                        0 <= c < num_bins ==> #[trigger] cursor@[c] == offsets@[c] + (if lo <= c < b {
                            bin_members(ranges@.take(e + 1), c)
                        } else {
                            bin_members(ranges@.take(e as int), c)
                        }).len(),
                    forall|c: int|
                        0 <= c < num_bins ==> edges@.subrange(offsets@[c] as int, #[trigger] cursor@[c] as int)
                            == (if lo <= c < b {
                            bin_members(ranges@.take(e + 1), c)
                        } else {
                            bin_members(ranges@.take(e as int), c)
                        }),
                    forall|c: int| 0 <= c < num_bins ==> bin_members(ranges@.take(e + 1), c) == if lo <= c <= hi {
                        bin_members(ranges@.take(e as int), c).push(e)
                    } else {
                        bin_members(ranges@.take(e as int), c)
                    },
                decreases hi + 1 - b,
            {
                let ghost old_edges = edges@;
                let ghost old_cursor = cursor@;
                let pos = cursor[b];
                proof {
                    lemma_members_prefix(ranges@, e + 1, b as int);
                    assert(offsets@[b + 1] == offsets@[b as int] + counts@[b as int]);
                    assert(pos < offsets@[b + 1]);
                    // Every slab's filled part ends within the slab.
                    assert forall|c: int| 0 <= c < num_bins implies #[trigger] old_cursor[c] <= offsets@[c + 1] by {
                        lemma_members_prefix(ranges@, e as int, c);
                        lemma_members_prefix(ranges@, e + 1, c);
                        assert(offsets@[c + 1] == offsets@[c] + counts@[c]);
                    }
                }
                edges.set(pos, e);
                cursor.set(b, pos + 1);
                proof {
                    assert forall|c: int| 0 <= c < num_bins implies edges@.subrange(
                        offsets@[c] as int,
                        #[trigger] cursor@[c] as int,
                    ) == (if lo <= c < b + 1 {
                        bin_members(ranges@.take(e + 1), c)
                    } else {
                        bin_members(ranges@.take(e as int), c)
                    }) by {
                        if c == b {
                            assert(edges@.subrange(offsets@[c] as int, cursor@[c] as int) =~= old_edges.subrange(
                                offsets@[c] as int,
                                old_cursor[c] as int,
                            ).push(e));
                        } else {
                            assert(old_cursor[c] <= offsets@[c + 1]);
                            if c < b {
                                assert(offsets@[c + 1] <= offsets@[b as int]);
                            } else {
                                assert(offsets@[b + 1] <= offsets@[c]);
                            }
                            assert(edges@.subrange(offsets@[c] as int, cursor@[c] as int) =~= old_edges.subrange(
                                offsets@[c] as int,
                                old_cursor[c] as int,
                            ));
                        }
                    }
                }
                b += 1;
            }
        }
        e += 1;
    }
    proof {
        assert(ranges@.take(n as int) =~= ranges@);
        assert forall|c: int| 0 <= c < num_bins implies edges@.subrange(
            offsets@[c] as int,
            offsets@[c + 1] as int,
        ) == #[trigger] bin_members(ranges@, c) by {
            assert(offsets@[c + 1] == offsets@[c] + counts@[c]);
            assert(cursor@[c] == offsets@[c + 1]);
        }
    }
    (offsets, edges)
}

} // verus!
