//! Restoring conformality and maintaining granularity (Chazelle, Sections 3.2 and 3.3).
use vstd::prelude::*;
use crate::geometry::PolygonGeometry;
use crate::submap::{Chord, Submap, SubmapArc, SubmapRegion};
use crate::fusion::same_payload;

verus! {

/// Sum of the weights of the regions.
pub open spec fn weight_sum<P>(rs: Seq<SubmapRegion<P>>) -> int
    decreases rs.len(),
{
    if rs.len() == 0 {
        0
    } else {
        weight_sum(rs.drop_last()) + rs.last().weight
    }
}

proof fn lemma_weight_sum_push<P>(rs: Seq<SubmapRegion<P>>, x: SubmapRegion<P>)
    ensures
        weight_sum(rs.push(x)) == weight_sum(rs) + x.weight,
{
    assert(rs.push(x).drop_last() =~= rs);
}

proof fn lemma_weight_sum_update<P>(rs: Seq<SubmapRegion<P>>, i: int, x: SubmapRegion<P>)
    requires
        0 <= i < rs.len(),
    ensures
        weight_sum(rs.update(i, x)) == weight_sum(rs) - rs[i].weight + x.weight,
    decreases rs.len(),
{
    if i == rs.len() - 1 {
        assert(rs.update(i, x).drop_last() =~= rs.drop_last());
    } else {
        lemma_weight_sum_update(rs.drop_last(), i, x);
        assert(rs.update(i, x).drop_last() =~= rs.drop_last().update(i, x));
    }
}

/// The chords of all the regions, counted with multiplicity.
pub open spec fn region_chords<P>(rs: Seq<SubmapRegion<P>>) -> vstd::multiset::Multiset<usize>
    decreases rs.len(),
{
    if rs.len() == 0 {
        vstd::multiset::Multiset::empty()
    } else {
        region_chords(rs.drop_last()).add(rs.last().chords@.to_multiset())
    }
}

proof fn lemma_region_chords_push<P>(rs: Seq<SubmapRegion<P>>, x: SubmapRegion<P>)
    ensures
        region_chords(rs.push(x)) == region_chords(rs).add(x.chords@.to_multiset()),
{
    assert(rs.push(x).drop_last() =~= rs);
}

proof fn lemma_region_chords_update<P>(rs: Seq<SubmapRegion<P>>, i: int, x: SubmapRegion<P>)
    requires
        0 <= i < rs.len(),
    ensures
        region_chords(rs.update(i, x)).add(rs[i].chords@.to_multiset()) == region_chords(rs).add(
            x.chords@.to_multiset(),
        ),
    decreases rs.len(),
{
    broadcast use vstd::multiset::group_multiset_axioms;

    if i == rs.len() - 1 {
        assert(rs.update(i, x).drop_last() =~= rs.drop_last());
        assert(region_chords(rs.update(i, x)).add(rs[i].chords@.to_multiset()) =~= region_chords(rs).add(
            x.chords@.to_multiset(),
        ));
    } else {
        let dl = rs.drop_last();
        lemma_region_chords_update(dl, i, x);
        assert(rs.update(i, x).drop_last() =~= dl.update(i, x));
        assert(rs.update(i, x).last() == rs.last());
        assert(dl[i] == rs[i]);
        let l = rs.last().chords@.to_multiset();
        let ci = rs[i].chords@.to_multiset();
        let xc = x.chords@.to_multiset();
        assert(region_chords(rs.update(i, x)) == region_chords(dl.update(i, x)).add(l));
        assert(region_chords(rs) == region_chords(dl).add(l));
        lemma_multiset_cancel(region_chords(dl.update(i, x)), region_chords(dl), ci, xc, l);
    }
}

/// Adding `l` to both sides of `u + a == b + c` keeps them equal.
proof fn lemma_multiset_cancel(
    u: vstd::multiset::Multiset<usize>,
    b: vstd::multiset::Multiset<usize>,
    a: vstd::multiset::Multiset<usize>,
    c: vstd::multiset::Multiset<usize>,
    l: vstd::multiset::Multiset<usize>,
)
    requires
        u.add(a) == b.add(c),
    ensures
        u.add(l).add(a) == b.add(l).add(c),
{
    broadcast use vstd::multiset::group_multiset_axioms;

    assert forall|v: usize| #[trigger] u.add(l).add(a).count(v) == b.add(l).add(c).count(v) by {
        vstd::multiset::axiom_multiset_add(u.add(l), a, v);
        vstd::multiset::axiom_multiset_add(u, l, v);
        vstd::multiset::axiom_multiset_add(b.add(l), c, v);
        vstd::multiset::axiom_multiset_add(b, l, v);
        vstd::multiset::axiom_multiset_add(u, a, v);
        vstd::multiset::axiom_multiset_add(b, c, v);
        assert(u.add(a).count(v) == b.add(c).count(v));
    }
    assert(u.add(l).add(a) =~= b.add(l).add(c));
}

/// Splitting `old` into `a` and `c` and moving `c` to a new region keeps the total.
proof fn lemma_multiset_split(
    u: vstd::multiset::Multiset<usize>,
    b: vstd::multiset::Multiset<usize>,
    a: vstd::multiset::Multiset<usize>,
    c: vstd::multiset::Multiset<usize>,
    old: vstd::multiset::Multiset<usize>,
)
    requires
        u.add(old) == b.add(a),
        old == a.add(c),
    ensures
        u.add(c) == b,
{
    broadcast use vstd::multiset::group_multiset_axioms;

    assert forall|v: usize| #[trigger] u.add(c).count(v) == b.count(v) by {
        vstd::multiset::axiom_multiset_add(u, c, v);
        vstd::multiset::axiom_multiset_add(u, old, v);
        vstd::multiset::axiom_multiset_add(b, a, v);
        vstd::multiset::axiom_multiset_add(a, c, v);
        assert(u.add(old).count(v) == b.add(a).count(v));
        assert(old.count(v) == a.count(v) + c.count(v));
    }
    assert(u.add(c) =~= b);
}

/// How far the regions are from having at most two chords each: the sum
/// over the regions of their chords beyond two.
pub open spec fn chord_excess<P>(rs: Seq<SubmapRegion<P>>) -> int
    decreases rs.len(),
{
    if rs.len() == 0 {
        0
    } else {
        chord_excess(rs.drop_last()) + if rs.last().chords@.len() >= 2 {
            rs.last().chords@.len() - 2
        } else {
            0
        }
    }
}

proof fn lemma_chord_excess_push<P>(rs: Seq<SubmapRegion<P>>, x: SubmapRegion<P>)
    ensures
        chord_excess(rs.push(x)) == chord_excess(rs) + if x.chords@.len() >= 2 {
            x.chords@.len() - 2
        } else {
            0
        },
{
    assert(rs.push(x).drop_last() =~= rs);
}

proof fn lemma_chord_excess_update<P>(rs: Seq<SubmapRegion<P>>, i: int, x: SubmapRegion<P>)
    requires
        0 <= i < rs.len(),
    ensures
        chord_excess(rs.update(i, x)) == chord_excess(rs) - (if rs[i].chords@.len() >= 2 {
            rs[i].chords@.len() - 2
        } else {
            0
        }) + (if x.chords@.len() >= 2 {
            x.chords@.len() - 2
        } else {
            0
        }),
    decreases rs.len(),
{
    if i == rs.len() - 1 {
        assert(rs.update(i, x).drop_last() =~= rs.drop_last());
    } else {
        lemma_chord_excess_update(rs.drop_last(), i, x);
        assert(rs.update(i, x).drop_last() =~= rs.drop_last().update(i, x));
    }
}

proof fn lemma_chord_excess_nonneg<P>(rs: Seq<SubmapRegion<P>>)
    ensures
        chord_excess(rs) >= 0,
    decreases rs.len(),
{
    if rs.len() > 0 {
        lemma_chord_excess_nonneg(rs.drop_last());
    }
}

/// Every region of `regions` is conformal.
pub open spec fn all_conformal<P>(regions: Seq<SubmapRegion<P>>) -> bool {
    forall|r: int| 0 <= r < regions.len() ==> (#[trigger] regions[r]).conformal()
}

/// Enforces conformality (Section 3.2): while a region has more than four
/// chords or arcs, the upper half of its chord list is moved to a new region
/// that takes half of its weight; a region with at most two chords is left as
/// it is. The new regions are treated in turn, so that in the end no region
/// has more than four chords and four arcs, but for regions of at most two
/// chords.
pub fn restore_conformality<G: PolygonGeometry>(
    submap: Submap<G::Point, G::Scalar>,
    _polygon: &G,
) -> (s: Submap<G::Point, G::Scalar>)
    ensures
        s.chords@ == submap.chords@,
        s.granularity == submap.granularity,
        s.regions@.len() >= submap.regions@.len(),
        weight_sum(s.regions@) == weight_sum(submap.regions@),
        region_chords(s.regions@) == region_chords(submap.regions@),
        forall|r: int| 0 <= r < s.regions@.len() ==> (#[trigger] s.regions@[r]).conformal() || s.regions@[r].chords@.len() <= 2,
        forall|r: int|
            0 <= r < submap.regions@.len() ==> {
                let reg = #[trigger] s.regions@[r];
                let orig = submap.regions@[r];
                &&& reg.id == orig.id
                &&& reg.arcs@ == orig.arcs@
                &&& reg.chords@ == orig.chords@.take(reg.chords@.len() as int)
            },
        forall|r: int|
            submap.regions@.len() <= r < s.regions@.len() ==> (#[trigger] s.regions@[r]).arcs@.len() == 0
                && s.regions@[r].id == r,
        all_conformal(submap.regions@) ==> s.regions@ == submap.regions@,
{
    let Submap { regions, chords, granularity } = submap;
    let mut regions = regions;
    let ghost orig = regions@;
    let initial_len = regions.len();
    let mut r_idx: usize = 0;
    while r_idx < regions.len()
        invariant
            initial_len == orig.len(),
            r_idx <= regions@.len(),
            initial_len <= regions@.len(),
            weight_sum(regions@) == weight_sum(orig),
            region_chords(regions@) == region_chords(orig),
            forall|r: int|
                0 <= r < initial_len ==> {
                    let reg = #[trigger] regions@[r];
                    &&& reg.id == orig[r].id
                    &&& reg.arcs@ == orig[r].arcs@
                    &&& reg.chords@ == orig[r].chords@.take(reg.chords@.len() as int)
                    &&& reg.chords@.len() <= orig[r].chords@.len()
                },
            forall|r: int| 0 <= r < r_idx ==> (#[trigger] regions@[r]).conformal() || regions@[r].chords@.len() <= 2,
            forall|r: int|
                initial_len <= r < regions@.len() ==> (#[trigger] regions@[r]).arcs@.len() == 0 && regions@[r].id
                    == r,
            all_conformal(orig) ==> regions@ == orig,
        decreases chord_excess(regions@), regions@.len() - r_idx,
    {
        let ghost e0 = chord_excess(regions@);
        let ghost len0 = regions@.len();
        let mut go = true;
        while go && (regions[r_idx].chords.len() > 4 || regions[r_idx].arcs.len() > 4)
            invariant
                initial_len == orig.len(),
                r_idx < regions@.len(),
                initial_len <= regions@.len(),
                weight_sum(regions@) == weight_sum(orig),
                region_chords(regions@) == region_chords(orig),
                forall|r: int|
                    0 <= r < initial_len ==> {
                        let reg = #[trigger] regions@[r];
                        &&& reg.id == orig[r].id
                        &&& reg.arcs@ == orig[r].arcs@
                        &&& reg.chords@ == orig[r].chords@.take(reg.chords@.len() as int)
                        &&& reg.chords@.len() <= orig[r].chords@.len()
                    },
                forall|r: int|
                    0 <= r < r_idx ==> (#[trigger] regions@[r]).conformal() || regions@[r].chords@.len() <= 2,
                forall|r: int|
                    initial_len <= r < regions@.len() ==> (#[trigger] regions@[r]).arcs@.len() == 0
                        && regions@[r].id == r,
                !go ==> regions@[r_idx as int].chords@.len() <= 2,
                all_conformal(orig) ==> regions@ == orig,
                chord_excess(regions@) < e0 || (chord_excess(regions@) == e0 && regions@.len() == len0),
            decreases regions@[r_idx as int].chords@.len(), (if go { 1int } else { 0int }),
        {
            let len = regions[r_idx].chords.len();
            if len <= 2 {
                go = false;
            } else {
                let mid = len / 2;
                let ghost before = regions@;
                let ghost old_reg = regions@[r_idx as int];
                let chords2 = regions[r_idx].chords.split_off(mid);
                let new_r_id = regions.len();
                let half_weight = regions[r_idx].weight / 2;
                regions[r_idx].weight = regions[r_idx].weight - half_weight;
                proof {
                    let new_reg_view = regions@[r_idx as int];
                    assert(regions@ == before.update(r_idx as int, new_reg_view));
                    lemma_weight_sum_update(before, r_idx as int, new_reg_view);
                    lemma_chord_excess_update(before, r_idx as int, new_reg_view);
                    assert(new_reg_view.chords@ == old_reg.chords@.subrange(0, mid as int));
                    if r_idx < initial_len {
                        assert(old_reg.chords@ == orig[r_idx as int].chords@.take(len as int));
                        assert(new_reg_view.chords@ =~= orig[r_idx as int].chords@.take(mid as int));
                    }
                }
                let mut new_reg: SubmapRegion<G::Point> = SubmapRegion::new(new_r_id);
                new_reg.chords = chords2;
                new_reg.weight = half_weight;
                proof {
                    lemma_weight_sum_push(regions@, new_reg);
                    lemma_chord_excess_push(regions@, new_reg);
                    lemma_region_chords_push(regions@, new_reg);
                    let new_reg_view = regions@[r_idx as int];
                    lemma_region_chords_update(before, r_idx as int, new_reg_view);
                    assert(old_reg.chords@ =~= new_reg_view.chords@ + new_reg.chords@);
                    vstd::seq_lib::lemma_multiset_commutative(new_reg_view.chords@, new_reg.chords@);
                    lemma_multiset_split(
                        region_chords(regions@),
                        region_chords(before),
                        new_reg_view.chords@.to_multiset(),
                        new_reg.chords@.to_multiset(),
                        old_reg.chords@.to_multiset(),
                    );
                }
                regions.push(new_reg);
            }
        }
        proof {
            lemma_chord_excess_nonneg(regions@);
        }
        r_idx += 1;
    }
    Submap { regions, chords, granularity }
}

/// Whether chord `c` survives the granularity pass for target `gamma`: it
/// goes when it joins a region of degree below 3 and the two regions it
/// separates weigh at most `gamma` together.
pub open spec fn keeps_chord<P, S>(c: Chord<P, S>, regions: Seq<SubmapRegion<P>>, gamma: int) -> bool {
    let r1 = c.region1 as int;
    let r2 = c.region2 as int;
    if r1 < regions.len() && r2 < regions.len() {
        !((regions[r1].chords@.len() < 3 || regions[r2].chords@.len() < 3) && regions[r1].weight
            + regions[r2].weight <= gamma)
    } else {
        true
    }
}

/// Chord `c` joins two regions of `regions` and the granularity pass drops it.
pub open spec fn dropped<P, S>(c: Chord<P, S>, regions: Seq<SubmapRegion<P>>, gamma: int) -> bool {
    (c.region1 as int) < regions.len() && (c.region2 as int) < regions.len() && !keeps_chord(
        c,
        regions,
        gamma,
    )
}

/// The labels `l` with every `from` turned into `to`.
pub open spec fn relabel(l: Seq<usize>, from: usize, to: usize) -> Seq<usize> {
    Seq::new(l.len(), |i: int| if l[i] == from { to } else { l[i] })
}

/// The class label of every region once the first `k` chords are seen: each
/// dropped chord merges the classes of its two regions into the class of
/// its first region.
pub open spec fn merge_labels<P, S>(
    chords: Seq<Chord<P, S>>,
    regions: Seq<SubmapRegion<P>>,
    gamma: int,
    k: int,
) -> Seq<usize>
    decreases k,
{
    if k <= 0 {
        Seq::new(regions.len(), |i: int| i as usize)
    } else {
        let l = merge_labels(chords, regions, gamma, k - 1);
        let c = chords[k - 1];
        if dropped(c, regions, gamma) {
            relabel(l, l[c.region2 as int], l[c.region1 as int])
        } else {
            l
        }
    }
}

/// Labels of `m` regions: each names a region that labels itself.
pub open spec fn labels_ok(l: Seq<usize>, m: int) -> bool {
    &&& l.len() == m
    &&& forall|i: int| 0 <= i < m ==> (#[trigger] l[i] as int) < m && l[l[i] as int] == l[i]
}

/// The number of regions below `i` that label themselves: the index, among
/// the merged regions, of the class of region `i` when `i` labels itself.
pub open spec fn count_reps(l: Seq<usize>, i: int) -> int
    decreases i,
{
    if i <= 0 {
        0
    } else {
        count_reps(l, i - 1) + if l[i - 1] == (i - 1) as usize {
            1int
        } else {
            0int
        }
    }
}

proof fn lemma_count_reps_mono(l: Seq<usize>, i: int, j: int)
    requires
        0 <= i <= j,
    ensures
        count_reps(l, i) <= count_reps(l, j),
        count_reps(l, j) <= count_reps(l, i) + (j - i),
    decreases j - i,
{
    if i < j {
        lemma_count_reps_mono(l, i, j - 1);
    }
}

/// A chord of `chords` with identifier `id` is dropped.
pub open spec fn dropped_id<P, S>(
    chords: Seq<Chord<P, S>>,
    regions: Seq<SubmapRegion<P>>,
    gamma: int,
    id: usize,
) -> bool {
    exists|k: int| 0 <= k < chords.len() && chords[k].id == id && dropped(chords[k], regions, gamma)
}

/// The arcs of the regions below `i` of class `r`, in order.
pub open spec fn class_arcs<P>(regions: Seq<SubmapRegion<P>>, l: Seq<usize>, r: usize, i: int) -> Seq<
    SubmapArc<P>,
>
    decreases i,
{
    if i <= 0 {
        Seq::empty()
    } else {
        class_arcs(regions, l, r, i - 1) + if l[i - 1] == r {
            regions[i - 1].arcs@
        } else {
            Seq::empty()
        }
    }
}

/// The chords of the regions below `i` of class `r`, in order.
pub open spec fn class_chords<P>(regions: Seq<SubmapRegion<P>>, l: Seq<usize>, r: usize, i: int) -> Seq<usize>
    decreases i,
{
    if i <= 0 {
        Seq::empty()
    } else {
        class_chords(regions, l, r, i - 1) + if l[i - 1] == r {
            regions[i - 1].chords@
        } else {
            Seq::empty()
        }
    }
}

/// The total weight of the regions below `i` of class `r`.
pub open spec fn class_weight<P>(regions: Seq<SubmapRegion<P>>, l: Seq<usize>, r: usize, i: int) -> int
    decreases i,
{
    if i <= 0 {
        0
    } else {
        class_weight(regions, l, r, i - 1) + if l[i - 1] == r {
            regions[i - 1].weight as int
        } else {
            0
        }
    }
}

proof fn lemma_relabel_ok(l: Seq<usize>, m: int, a: usize, b: usize)
    requires
        labels_ok(l, m),
        (a as int) < m,
        l[a as int] == a,
    ensures
        labels_ok(relabel(l, b, a), m),
{
    let l2 = relabel(l, b, a);
    assert forall|i: int| 0 <= i < m implies (#[trigger] l2[i] as int) < m && l2[l2[i] as int] == l2[i] by {
        assert(l[l[i] as int] == l[i]);
    }
}

proof fn lemma_merge_labels_ok<P, S>(
    chords: Seq<Chord<P, S>>,
    regions: Seq<SubmapRegion<P>>,
    gamma: int,
    k: int,
)
    requires
        0 <= k <= chords.len(),
    ensures
        labels_ok(merge_labels(chords, regions, gamma, k), regions.len() as int),
    decreases k,
{
    if k > 0 {
        lemma_merge_labels_ok(chords, regions, gamma, k - 1);
        let l = merge_labels(chords, regions, gamma, k - 1);
        let c = chords[k - 1];
        if dropped(c, regions, gamma) {
            lemma_relabel_ok(l, regions.len() as int, l[c.region1 as int], l[c.region2 as int]);
        }
    }
}

/// Once the classes of two regions agree they agree from then on; so the two
/// regions of every dropped chord end in one class.
proof fn lemma_merged_stay<P, S>(
    chords: Seq<Chord<P, S>>,
    regions: Seq<SubmapRegion<P>>,
    gamma: int,
    j: int,
    k: int,
    x: int,
    y: int,
)
    requires
        0 <= j <= k <= chords.len(),
        0 <= x < regions.len(),
        0 <= y < regions.len(),
        merge_labels(chords, regions, gamma, j)[x] == merge_labels(chords, regions, gamma, j)[y],
    ensures
        merge_labels(chords, regions, gamma, k)[x] == merge_labels(chords, regions, gamma, k)[y],
    decreases k - j,
{
    if j < k {
        lemma_merged_stay(chords, regions, gamma, j, k - 1, x, y);
        lemma_merge_labels_ok(chords, regions, gamma, k - 1);
    }
}

/// The regions of each dropped chord end in one class.
pub proof fn lemma_dropped_chords_merge<P, S>(
    chords: Seq<Chord<P, S>>,
    regions: Seq<SubmapRegion<P>>,
    gamma: int,
    k: int,
)
    requires
        0 <= k < chords.len(),
        dropped(chords[k], regions, gamma),
    ensures
        ({
            let l = merge_labels(chords, regions, gamma, chords.len() as int);
            l[chords[k].region1 as int] == l[chords[k].region2 as int]
        }),
{
    lemma_merge_labels_ok(chords, regions, gamma, k);
    let c = chords[k];
    let l = merge_labels(chords, regions, gamma, k);
    let l1 = merge_labels(chords, regions, gamma, k + 1);
    assert(l1 == relabel(l, l[c.region2 as int], l[c.region1 as int]));
    assert(l1[c.region1 as int] == l1[c.region2 as int]);
    lemma_merged_stay(chords, regions, gamma, k + 1, chords.len() as int, c.region1 as int, c.region2 as int);
}

/// The submap `s` is what the granularity pass makes of `submap` for target
/// `gamma`: the kept chords in order, their regions renumbered; the regions
/// merged into classes by the dropped chords, each class one region listing
/// the arcs of its members, their chords but the dropped ones, and their
/// total weight (saturated at `usize::MAX`).
pub open spec fn granular_result<P, S>(s: Submap<P, S>, submap: Submap<P, S>, gamma: int) -> bool {
    let regions = submap.regions@;
    let chords = submap.chords@;
    let m = regions.len() as int;
    let l = merge_labels(chords, regions, gamma, chords.len() as int);
    let kept = chords.filter(|c: Chord<P, S>| keeps_chord(c, regions, gamma));
    &&& s.granularity == gamma
    &&& s.chords@.len() == kept.len()
    &&& forall|k: int|
        0 <= k < kept.len() ==> {
            let c = #[trigger] s.chords@[k];
            let o = kept[k];
            &&& c.id == o.id
            &&& same_payload(c, o)
            &&& c.region1 == if (o.region1 as int) < m {
                count_reps(l, l[o.region1 as int] as int) as usize
            } else {
                o.region1
            }
            &&& c.region2 == if (o.region2 as int) < m {
                count_reps(l, l[o.region2 as int] as int) as usize
            } else {
                o.region2
            }
        }
    &&& s.regions@.len() == count_reps(l, m)
    &&& forall|r: int|
        0 <= r < m && l[r] == r as usize ==> {
            let reg = #[trigger] s.regions@[count_reps(l, r)];
            &&& reg.id == count_reps(l, r)
            &&& reg.arcs@ == class_arcs(regions, l, r as usize, m)
            &&& reg.chords@ == class_chords(regions, l, r as usize, m).filter(
                |id: usize| !dropped_id(chords, regions, gamma, id),
            )
            &&& reg.weight == if class_weight(regions, l, r as usize, m) <= usize::MAX {
                class_weight(regions, l, r as usize, m)
            } else {
                usize::MAX as int
            }
        }
}

/// The granularity pass removes exactly the superfluous chords: those
/// between two regions that weigh at most `gamma` together, one of which has
/// fewer than three chords. Every chord it keeps is an input chord that is not
/// superfluous, and every input chord that is not superfluous is kept.
pub proof fn lemma_granularity_drops_superfluous<P, S>(s: Submap<P, S>, submap: Submap<P, S>, gamma: int)
    requires
        granular_result(s, submap, gamma),
    ensures
        forall|k: int|
            #![trigger s.chords@[k]]
            0 <= k < s.chords@.len() ==> exists|j: int|
                #![trigger submap.chords@[j]]
                0 <= j < submap.chords@.len() && submap.chords@[j].id == s.chords@[k].id
                    && same_payload(s.chords@[k], submap.chords@[j]) && !({
                    let c = submap.chords@[j];
                    let rs = submap.regions@;
                    &&& (c.region1 as int) < rs.len()
                    &&& (c.region2 as int) < rs.len()
                    &&& rs[c.region1 as int].chords@.len() < 3 || rs[c.region2 as int].chords@.len() < 3
                    &&& rs[c.region1 as int].weight + rs[c.region2 as int].weight <= gamma
                }),
        forall|j: int|
            0 <= j < submap.chords@.len() && !({
                let c = #[trigger] submap.chords@[j];
                let rs = submap.regions@;
                &&& (c.region1 as int) < rs.len()
                &&& (c.region2 as int) < rs.len()
                &&& rs[c.region1 as int].chords@.len() < 3 || rs[c.region2 as int].chords@.len() < 3
                &&& rs[c.region1 as int].weight + rs[c.region2 as int].weight <= gamma
            }) ==> exists|k: int|
                #![trigger s.chords@[k]]
                0 <= k < s.chords@.len() && s.chords@[k].id == submap.chords@[j].id && same_payload(
                    s.chords@[k],
                    submap.chords@[j],
                ),
{
    let regions = submap.regions@;
    let chords = submap.chords@;
    let pred = |c: Chord<P, S>| keeps_chord(c, regions, gamma);
    let kept = chords.filter(pred);
    assert forall|k: int| #![trigger s.chords@[k]] 0 <= k < s.chords@.len() implies exists|j: int|
        #![trigger submap.chords@[j]]
        0 <= j < submap.chords@.len() && submap.chords@[j].id == s.chords@[k].id
            && same_payload(s.chords@[k], submap.chords@[j]) && !({
            let c = submap.chords@[j];
            let rs = submap.regions@;
            &&& (c.region1 as int) < rs.len()
            &&& (c.region2 as int) < rs.len()
            &&& rs[c.region1 as int].chords@.len() < 3 || rs[c.region2 as int].chords@.len() < 3
            &&& rs[c.region1 as int].weight + rs[c.region2 as int].weight <= gamma
        }) by {
        let o = kept[k];
        chords.lemma_filter_pred(pred, k);
        assert(kept.contains(o));
        chords.lemma_filter_contains_rev(pred, o);
        let j = choose|j: int| 0 <= j < chords.len() && chords[j] == o;
        assert(keeps_chord(o, regions, gamma));
        assert(submap.chords@[j].id == s.chords@[k].id);
    }
    assert forall|j: int|
        0 <= j < submap.chords@.len() && !({
            let c = #[trigger] submap.chords@[j];
            let rs = submap.regions@;
            &&& (c.region1 as int) < rs.len()
            &&& (c.region2 as int) < rs.len()
            &&& rs[c.region1 as int].chords@.len() < 3 || rs[c.region2 as int].chords@.len() < 3
            &&& rs[c.region1 as int].weight + rs[c.region2 as int].weight <= gamma
        }) implies exists|k: int|
            #![trigger s.chords@[k]]
            0 <= k < s.chords@.len() && s.chords@[k].id == submap.chords@[j].id && same_payload(
                s.chords@[k],
                submap.chords@[j],
            ) by {
        let c = chords[j];
        assert(pred(c));
        chords.lemma_filter_contains(pred, j);
        assert(kept.contains(c));
        let k = choose|k: int| 0 <= k < kept.len() && kept[k] == c;
        assert(s.chords@[k].id == c.id);
    }
}

/// Turns every label `from` into `to`.
fn relabel_in_place(labels: &mut Vec<usize>, from: usize, to: usize)
    ensures
        final(labels)@ == relabel(old(labels)@, from, to),
{
    let ghost old_l = labels@;
    let mut x: usize = 0;
    while x < labels.len()
        invariant
            labels@.len() == old_l.len(),
            x <= labels@.len(),
            forall|y: int| 0 <= y < x ==> #[trigger] labels@[y] == if old_l[y] == from {
                to
            } else {
                old_l[y]
            },
            forall|y: int| x <= y < labels@.len() ==> #[trigger] labels@[y] == old_l[y],
        decreases labels@.len() - x,
    {
        if labels[x] == from {
            labels.set(x, to);
        }
        x += 1;
    }
    assert(labels@ =~= relabel(old_l, from, to));
}

/// Whether `x` is among `xs`.
fn contains_id(xs: &Vec<usize>, x: usize) -> (r: bool)
    ensures
        r == xs@.contains(x),
{
    let mut i: usize = 0;
    while i < xs.len()
        invariant
            i <= xs@.len(),
            forall|j: int| 0 <= j < i ==> xs@[j] != x,
        decreases xs@.len() - i,
    {
        if xs[i] == x {
            return true;
        }
        i += 1;
    }
    false
}

/// The region `id` made of the regions of class `r`: their arcs, their
/// chords but those in `dropped_ids`, and their total weight (saturated).
fn class_region<P: Copy>(
    regions: &Vec<SubmapRegion<P>>,
    labels: &Vec<usize>,
    r: usize,
    id: usize,
    dropped_ids: &Vec<usize>,
) -> (reg: SubmapRegion<P>)
    requires
        labels@.len() == regions@.len(),
    ensures
        reg.id == id,
        reg.arcs@ == class_arcs(regions@, labels@, r, regions@.len() as int),
        reg.chords@ == class_chords(regions@, labels@, r, regions@.len() as int).filter(
            |c: usize| !dropped_ids@.contains(c),
        ),
        reg.weight == if class_weight(regions@, labels@, r, regions@.len() as int) <= usize::MAX {
            class_weight(regions@, labels@, r, regions@.len() as int)
        } else {
            usize::MAX as int
        },
{
    let ghost keep = |c: usize| !dropped_ids@.contains(c);
    let mut reg: SubmapRegion<P> = SubmapRegion::new(id);
    let mut saturated = false;
    let mut i: usize = 0;
    while i < regions.len()
        invariant
            i <= regions@.len() == labels@.len(),
            reg.id == id,
            keep == (|c: usize| !dropped_ids@.contains(c)),
            reg.arcs@ == class_arcs(regions@, labels@, r, i as int),
            reg.chords@ == class_chords(regions@, labels@, r, i as int).filter(keep),
            saturated ==> reg.weight == usize::MAX && class_weight(regions@, labels@, r, i as int) > usize::MAX,
            !saturated ==> reg.weight == class_weight(regions@, labels@, r, i as int),
            class_weight(regions@, labels@, r, i as int) >= 0,
        decreases regions@.len() - i,
    {
        if labels[i] == r {
            let member = &regions[i];
            proof {
                assert(*member == regions@[i as int]);
                assert(class_arcs(regions@, labels@, r, i + 1) == class_arcs(regions@, labels@, r, i as int)
                    + member.arcs@);
                assert(class_chords(regions@, labels@, r, i + 1) == class_chords(regions@, labels@, r, i as int)
                    + member.chords@);
                assert(class_weight(regions@, labels@, r, i + 1) == class_weight(regions@, labels@, r, i as int)
                    + member.weight);
            }
            let mut k: usize = 0;
            let ghost arcs0 = reg.arcs@;
            let ghost ch0 = reg.chords@;
            let ghost w0 = reg.weight;
            while k < member.arcs.len()
                invariant
                    k <= member.arcs@.len(),
                    reg.id == id,
                    reg.chords@ == ch0,
                    reg.weight == w0,
                    reg.arcs@ == arcs0 + member.arcs@.take(k as int),
                decreases member.arcs@.len() - k,
            {
                reg.arcs.push(member.arcs[k]);
                assert(member.arcs@.take(k + 1) =~= member.arcs@.take(k as int).push(member.arcs@[k as int]));
                k += 1;
            }
            assert(member.arcs@.take(member.arcs@.len() as int) =~= member.arcs@);
            let ghost chords0 = reg.chords@;
            let ghost arcs1 = reg.arcs@;
            let mut k: usize = 0;
            while k < member.chords.len()
                invariant
                    k <= member.chords@.len(),
                    reg.id == id,
                    reg.arcs@ == arcs1,
                    reg.weight == w0,
                    keep == (|c: usize| !dropped_ids@.contains(c)),
                    reg.chords@ == chords0 + member.chords@.take(k as int).filter(keep),
                decreases member.chords@.len() - k,
            {
                let c = member.chords[k];
                proof {
                    reveal_with_fuel(Seq::filter, 1);
                    assert(member.chords@.take(k + 1).drop_last() =~= member.chords@.take(k as int));
                }
                if !contains_id(dropped_ids, c) {
                    reg.chords.push(c);
                    assert(reg.chords@ =~= chords0 + member.chords@.take(k + 1).filter(keep));
                }
                k += 1;
            }
            proof {
                assert(member.chords@.take(member.chords@.len() as int) =~= member.chords@);
                Seq::filter_distributes_over_add(
                    class_chords(regions@, labels@, r, i as int),
                    member.chords@,
                    keep,
                );
            }
            if !saturated {
                if reg.weight <= usize::MAX - member.weight {
                    reg.weight = reg.weight + member.weight;
                } else {
                    reg.weight = usize::MAX;
                    saturated = true;
                }
            }
        } else {
            proof {
                assert(class_arcs(regions@, labels@, r, i + 1) =~= class_arcs(regions@, labels@, r, i as int));
                assert(class_chords(regions@, labels@, r, i + 1) =~= class_chords(regions@, labels@, r, i as int));
            }
        }
        i += 1;
    }
    reg
}

/// Enforces gamma-granularity (Section 3.3) by removing superfluous chords
/// and merging the regions they separate: a chord is dropped when one of its
/// two regions has degree below 3 and their combined weight does not exceed
/// `gamma`, and the regions joined by dropped chords become one region.
pub fn maintain_granularity<P: Copy, S: Copy>(submap: Submap<P, S>, gamma: usize) -> (s: Submap<P, S>)
    ensures
        submap.chords@.len() == 0 || gamma <= 1 ==> s.regions@ == submap.regions@ && s.chords@
            == submap.chords@ && s.granularity == submap.granularity,
        !(submap.chords@.len() == 0 || gamma <= 1) ==> granular_result(s, submap, gamma as int),
{
    if submap.chords.len() == 0 || gamma <= 1 {
        return submap;
    }
    let ghost orig = submap;
    let Submap { regions, chords, granularity: _ } = submap;
    let n_regions = regions.len();
    let ghost g = gamma as int;
    let ghost pred = |c: Chord<P, S>| keeps_chord(c, regions@, gamma as int);
    let mut kept: Vec<Chord<P, S>> = Vec::new();
    let mut labels = crate::monotone::identity_order(n_regions);
    let mut dropped_ids: Vec<usize> = Vec::new();
    proof {
        assert(labels@ =~= merge_labels(chords@, regions@, g, 0));
    }
    let mut i: usize = 0;
    while i < chords.len()
        invariant
            i <= chords@.len(),
            n_regions == regions@.len(),
            pred == (|c: Chord<P, S>| keeps_chord(c, regions@, gamma as int)),
            kept@ == chords@.take(i as int).filter(pred),
            labels@ == merge_labels(chords@, regions@, g, i as int),
            g == gamma as int,
            forall|x: usize|
                dropped_ids@.contains(x) <==> exists|k: int|
                    0 <= k < i && chords@[k].id == x && dropped(#[trigger] chords@[k], regions@, g),
        decreases chords@.len() - i,
    {
        let chord = chords[i];
        let r1 = chord.region1;
        let r2 = chord.region2;
        let keep = if r1 < n_regions && r2 < n_regions {
            let w1 = regions[r1].weight;
            let w2 = regions[r2].weight;
            let deg1 = regions[r1].chords.len();
            let deg2 = regions[r2].chords.len();
            // Combined weight within gamma, computed without overflow.
            let light = w1 <= gamma && w2 <= gamma - w1;
            !((deg1 < 3 || deg2 < 3) && light)
        } else {
            true
        };
        proof {
            assert(keep == pred(chord));
            reveal_with_fuel(Seq::filter, 1);
            assert(chords@.take(i + 1).drop_last() =~= chords@.take(i as int));
            lemma_merge_labels_ok(chords@, regions@, g, i as int);
            assert(chords@[i as int] == chord);
        }
        if !keep {
            // The chord goes: its two regions fall into one class.
            let ghost d0 = dropped_ids@;
            dropped_ids.push(chord.id);
            let a = labels[r1];
            let b = labels[r2];
            relabel_in_place(&mut labels, b, a);
            proof {
                assert forall|x: usize|
                    dropped_ids@.contains(x) <==> exists|k: int|
                        0 <= k < i + 1 && chords@[k].id == x && dropped(#[trigger] chords@[k], regions@, g) by {
                    if dropped_ids@.contains(x) {
                        let w = choose|w: int| 0 <= w < dropped_ids@.len() && dropped_ids@[w] == x;
                        if w < d0.len() {
                            assert(d0[w] == x);
                            assert(d0.contains(x));
                        } else {
                            assert(dropped(chords@[i as int], regions@, g));
                        }
                    }
                    if exists|k: int| 0 <= k < i + 1 && chords@[k].id == x && dropped(#[trigger] chords@[k], regions@, g) {
                        let k = choose|k: int| 0 <= k < i + 1 && chords@[k].id == x && dropped(#[trigger] chords@[k], regions@, g);
                        if k < i {
                            assert(chords@[k].id == x && dropped(chords@[k], regions@, g));
                            assert(d0.contains(x));
                            let w = choose|w: int| 0 <= w < d0.len() && d0[w] == x;
                            assert(dropped_ids@[w] == x);
                        } else {
                            assert(dropped_ids@[d0.len() as int] == x);
                        }
                    }
                }
            }
        } else {
            proof {
                assert forall|x: usize|
                    dropped_ids@.contains(x) <==> exists|k: int|
                        0 <= k < i + 1 && chords@[k].id == x && dropped(#[trigger] chords@[k], regions@, g) by {
                    if exists|k: int| 0 <= k < i + 1 && chords@[k].id == x && dropped(#[trigger] chords@[k], regions@, g) {
                        let k = choose|k: int| 0 <= k < i + 1 && chords@[k].id == x && dropped(#[trigger] chords@[k], regions@, g);
                        assert(k < i);
                    }
                }
            }
            kept.push(chord);
        }
        i += 1;
    }
    let ghost l = labels@;
    proof {
        assert(chords@.take(chords@.len() as int) =~= chords@);
        lemma_merge_labels_ok(chords@, regions@, g, chords@.len() as int);
    }
    // The index of each class among the merged regions, and the merged regions.
    let mut index_of: Vec<usize> = Vec::with_capacity(n_regions);
    let mut new_regions: Vec<SubmapRegion<P>> = Vec::new();
    let mut r: usize = 0;
    while r < n_regions
        invariant
            r <= n_regions == regions@.len(),
            labels@ == l,
            labels_ok(l, n_regions as int),
            index_of@.len() == r,
            new_regions@.len() == count_reps(l, r as int),
            count_reps(l, r as int) <= r,
            forall|x: int| 0 <= x < r ==> #[trigger] index_of@[x] == count_reps(l, x),
            forall|x: int|
                0 <= x < r && l[x] == x as usize ==> {
                    let reg = #[trigger] new_regions@[count_reps(l, x)];
                    &&& reg.id == count_reps(l, x)
                    &&& reg.arcs@ == class_arcs(regions@, l, x as usize, n_regions as int)
                    &&& reg.chords@ == class_chords(regions@, l, x as usize, n_regions as int).filter(
                        |c: usize| !dropped_ids@.contains(c),
                    )
                    &&& reg.weight == if class_weight(regions@, l, x as usize, n_regions as int)
                        <= usize::MAX {
                        class_weight(regions@, l, x as usize, n_regions as int)
                    } else {
                        usize::MAX as int
                    }
                },
        decreases n_regions - r,
    {
        index_of.push(new_regions.len());
        let ghost nr0 = new_regions@;
        if labels[r] == r {
            let reg = class_region(&regions, &labels, r, new_regions.len(), &dropped_ids);
            new_regions.push(reg);
        }
        proof {
            assert(count_reps(l, r + 1) == count_reps(l, r as int) + if l[r as int] == r {
                1int
            } else {
                0int
            });
            assert forall|x: int| 0 <= x < r && l[x] == x as usize implies new_regions@[count_reps(l, x)]
                == nr0[count_reps(l, x)] by {
                lemma_count_reps_mono(l, x + 1, r as int);
            }
        }
        r += 1;
    }
    // The kept chords, their regions renumbered.
    let mut linked: Vec<Chord<P, S>> = Vec::with_capacity(kept.len());
    let mut k: usize = 0;
    while k < kept.len()
        invariant
            k <= kept@.len(),
            n_regions == regions@.len(),
            labels@ == l,
            labels_ok(l, n_regions as int),
            index_of@.len() == n_regions,
            forall|x: int| 0 <= x < n_regions ==> #[trigger] index_of@[x] == count_reps(l, x),
            linked@.len() == k,
            forall|j: int|
                0 <= j < k ==> {
                    let c = #[trigger] linked@[j];
                    let o = kept@[j];
                    &&& c.id == o.id
                    &&& same_payload(c, o)
                    &&& c.region1 == if (o.region1 as int) < n_regions {
                        count_reps(l, l[o.region1 as int] as int) as usize
                    } else {
                        o.region1
                    }
                    &&& c.region2 == if (o.region2 as int) < n_regions {
                        count_reps(l, l[o.region2 as int] as int) as usize
                    } else {
                        o.region2
                    }
                },
        decreases kept@.len() - k,
    {
        let mut c = kept[k];
        if c.region1 < n_regions {
            c.region1 = index_of[labels[c.region1]];
        }
        if c.region2 < n_regions {
            c.region2 = index_of[labels[c.region2]];
        }
        linked.push(c);
        k += 1;
    }
    proof {
        assert(l == merge_labels(orig.chords@, orig.regions@, g, orig.chords@.len() as int));
        let keep_id = |c: usize| !dropped_ids@.contains(c);
        let keep_id2 = |c: usize| !dropped_id(chords@, regions@, g, c);
        assert(keep_id =~= keep_id2);
    }
    Submap { regions: new_regions, chords: linked, granularity: gamma }
}

} // verus!
