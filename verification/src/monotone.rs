//! Triangulation errors, diagonals, the decomposition of a polygon along
//! diagonals and the triangulation of the resulting pieces.
use vstd::prelude::*;
use crate::geometry::{PolygonGeometry, Turn, Winding};
use crate::submap::{Chord, Submap};
use crate::monotone_sweep::contains_diagonal;

verus! {

/// Error type for triangulation failures.
#[derive(Debug, Clone, PartialEq, Eq)]
pub enum TriangulationError {
    PolygonTooSmall,
    DegeneratePolygon,
    InternalError(String),
}

/// A diagonal connecting two vertices of the polygon, stored with `u <= v`.
#[derive(Debug, Clone, Copy, PartialEq, Eq, Structural, Hash)]
pub struct Diagonal {
    pub u: usize,
    pub v: usize,
}

impl Diagonal {
    pub open spec fn new_spec(a: usize, b: usize) -> Diagonal {
        if a < b {
            Diagonal { u: a, v: b }
        } else {
            Diagonal { u: b, v: a }
        }
    }

    /// The diagonal between `a` and `b`, with its endpoints in increasing order.
    pub fn new(a: usize, b: usize) -> (d: Self)
        ensures
            d == Diagonal::new_spec(a, b),
            d.u <= d.v,
            (d.u == a && d.v == b) || (d.u == b && d.v == a),
    {
        if a < b {
            Self { u: a, v: b }
        } else {
            Self { u: b, v: a }
        }
    }
}

/// The same diagonal is made from either of its endpoints.
pub proof fn lemma_diagonal_symmetric(a: usize, b: usize)
    ensures
        Diagonal::new_spec(a, b) == Diagonal::new_spec(b, a),
{
}

/// The three corners of `t` are vertices listed in `s`.
pub open spec fn corners_in(t: [usize; 3], s: Seq<usize>) -> bool {
    &&& s.contains(t[0])
    &&& s.contains(t[1])
    &&& s.contains(t[2])
}

/// The three corners of `t` are pairwise distinct.
pub open spec fn distinct_corners(t: [usize; 3]) -> bool {
    &&& t[0] != t[1]
    &&& t[1] != t[2]
    &&& t[0] != t[2]
}

/// Every triangle of `ts` has its corners among the vertices listed in `s`,
/// and pairwise distinct when `s` lists no vertex twice.
pub open spec fn triangles_from(ts: Seq<[usize; 3]>, s: Seq<usize>) -> bool {
    forall|k: int|
        0 <= k < ts.len() ==> corners_in(#[trigger] ts[k], s) && (s.no_duplicates()
            ==> distinct_corners(ts[k]))
}

/// The three corners of `t` are distinct vertices of an `n`-gon.
pub open spec fn triangle_within(t: [usize; 3], n: int) -> bool {
    &&& t[0] < n
    &&& t[1] < n
    &&& t[2] < n
    &&& distinct_corners(t)
}

/// Every triangle of `ts` has three distinct corners among the vertices of an `n`-gon.
pub open spec fn triangles_within(ts: Seq<[usize; 3]>, n: int) -> bool {
    forall|k: int| 0 <= k < ts.len() ==> #[trigger] triangle_within(ts[k], n)
}

/// A piece of a decomposition: a cycle of at least three distinct vertices of an `n`-gon.
pub open spec fn valid_piece(p: Seq<usize>, n: int) -> bool {
    &&& p.len() >= 3
    &&& p.no_duplicates()
    &&& forall|i: int| 0 <= i < p.len() ==> #[trigger] p[i] < n
}

pub open spec fn valid_pieces(ps: Seq<Seq<usize>>, n: int) -> bool {
    forall|i: int| 0 <= i < ps.len() ==> #[trigger] valid_piece(ps[i], n)
}

pub open spec fn piece_views(ps: Seq<Vec<usize>>) -> Seq<Seq<usize>> {
    ps.map_values(|p: Vec<usize>| p@)
}

/// The number of triangles that the pieces `ps` triangulate into: the sum of
/// their lengths minus two.
pub open spec fn total_excess(ps: Seq<Seq<usize>>) -> int
    decreases ps.len(),
{
    if ps.len() == 0 {
        0
    } else {
        total_excess(ps.drop_last()) + (ps.last().len() - 2)
    }
}

/// The identity cycle `0, 1, ..., n - 1`.
pub open spec fn identity_cycle(n: int) -> Seq<usize> {
    Seq::new(n as nat, |i: int| i as usize)
}

proof fn lemma_excess_push(ps: Seq<Seq<usize>>, x: Seq<usize>)
    ensures
        total_excess(ps.push(x)) == total_excess(ps) + x.len() - 2,
{
    assert(ps.push(x).drop_last() =~= ps);
}

proof fn lemma_excess_update(ps: Seq<Seq<usize>>, i: int, x: Seq<usize>)
    requires
        0 <= i < ps.len(),
    ensures
        total_excess(ps.update(i, x)) == total_excess(ps) - (ps[i].len() - 2) + (x.len() - 2),
    decreases ps.len(),
{
    if i == ps.len() - 1 {
        assert(ps.update(i, x).drop_last() =~= ps.drop_last());
    } else {
        lemma_excess_update(ps.drop_last(), i, x);
        assert(ps.update(i, x).drop_last() =~= ps.drop_last().update(i, x));
    }
}

proof fn lemma_views_push(ps: Seq<Vec<usize>>, x: Vec<usize>)
    ensures
        piece_views(ps.push(x)) == piece_views(ps).push(x@),
{
    assert(piece_views(ps.push(x)) =~= piece_views(ps).push(x@));
}

proof fn lemma_views_update(ps: Seq<Vec<usize>>, i: int, x: Vec<usize>)
    requires
        0 <= i < ps.len(),
    ensures
        piece_views(ps.update(i, x)) == piece_views(ps).update(i, x@),
{
    assert(piece_views(ps.update(i, x)) =~= piece_views(ps).update(i, x@));
}

/// Cutting a valid piece at positions `first < second` that are neither
/// consecutive nor the two ends gives two valid pieces with the same total excess.
proof fn lemma_split_parts(s: Seq<usize>, n: int, first: int, second: int)
    requires
        valid_piece(s, n),
        0 <= first,
        first + 1 < second < s.len(),
        !(first == 0 && second == s.len() - 1),
    ensures
        valid_piece(s.subrange(first, second + 1), n),
        valid_piece(s.subrange(second, s.len() as int) + s.subrange(0, first + 1), n),
        (second - first + 1 - 2) + (s.len() - second + first + 1 - 2) == s.len() - 2,
{
    let a = s.subrange(first, second + 1);
    let b = s.subrange(second, s.len() as int) + s.subrange(0, first + 1);
    let tail = s.len() - second;
    assert forall|i: int, j: int| 0 <= i < a.len() && 0 <= j < a.len() && i != j implies a[i]
        != a[j] by {
        assert(a[i] == s[first + i]);
        assert(a[j] == s[first + j]);
    }
    assert forall|i: int| 0 <= i < b.len() implies #[trigger] b[i] == (if i < tail {
        s[second + i]
    } else {
        s[i - tail]
    }) by {}
    assert forall|i: int, j: int| 0 <= i < b.len() && 0 <= j < b.len() && i != j implies b[i]
        != b[j] by {
        let oi = if i < tail { second + i } else { i - tail };
        let oj = if j < tail { second + j } else { j - tail };
        assert(b[i] == s[oi]);
        assert(b[j] == s[oj]);
    }
    assert forall|i: int| 0 <= i < a.len() implies #[trigger] a[i] < n by {
        assert(a[i] == s[first + i]);
    }
    assert forall|i: int| 0 <= i < b.len() implies #[trigger] b[i] < n by {
        let oi = if i < tail { second + i } else { i - tail };
        assert(b[i] == s[oi]);
    }
}

/// An arrangement of the positions `0..m`: `m` distinct entries, each below `m`.
pub open spec fn is_arrangement(order: Seq<usize>, m: int) -> bool {
    &&& order.len() == m
    &&& order.no_duplicates()
    &&& forall|k: int| 0 <= k < order.len() ==> #[trigger] order[k] < m
}

/// Position of the first occurrence of `x` in `s`.
fn position_of(s: &Vec<usize>, x: usize) -> (r: Option<usize>)
    ensures
        match r {
            Some(i) => i < s@.len() && s@[i as int] == x && forall|j: int|
                0 <= j < i ==> s@[j] != x,
            None => !s@.contains(x),
        },
{
    let mut i: usize = 0;
    while i < s.len()
        invariant
            i <= s@.len(),
            forall|j: int| 0 <= j < i ==> s@[j] != x,
        decreases s@.len() - i,
    {
        if s[i] == x {
            return Some(i);
        }
        i += 1;
    }
    None
}

/// Appends `s[lo..hi]` to `out`.
fn extend_with_range(out: &mut Vec<usize>, s: &Vec<usize>, lo: usize, hi: usize)
    requires
        lo <= hi <= s@.len(),
    ensures
        final(out)@ == old(out)@ + s@.subrange(lo as int, hi as int),
{
    let ghost start = out@;
    let mut i = lo;
    while i < hi
        invariant
            lo <= i <= hi <= s@.len(),
            out@ == start + s@.subrange(lo as int, i as int),
        decreases hi - i,
    {
        out.push(s[i]);
        assert(s@.subrange(lo as int, i + 1) =~= s@.subrange(lo as int, i as int).push(s@[i as int]));
        i += 1;
    }
}

/// A copy of `s`.
fn copy_cycle(s: &Vec<usize>) -> (r: Vec<usize>)
    ensures
        r@ == s@,
{
    let mut r = Vec::new();
    extend_with_range(&mut r, s, 0, s.len());
    assert(s@.subrange(0, s@.len() as int) =~= s@);
    r
}

/// The cycle `0, 1, ..., n - 1`.
pub fn identity_order(n: usize) -> (r: Vec<usize>)
    ensures
        r@ == identity_cycle(n as int),
{
    let mut r: Vec<usize> = Vec::with_capacity(n);
    let mut i: usize = 0;
    while i < n
        invariant
            i <= n,
            r@ =~= identity_cycle(i as int),
        decreases n - i,
    {
        r.push(i);
        i += 1;
    }
    r
}

proof fn lemma_identity_cycle_valid(n: int)
    requires
        3 <= n <= usize::MAX,
    ensures
        valid_piece(identity_cycle(n), n),
{
    let s = identity_cycle(n);
    assert forall|i: int| 0 <= i < s.len() implies #[trigger] s[i] == i by {}
}

/// The position of `x` in the cycle `p` (the only one when `p` lists no
/// vertex twice).
pub open spec fn position_in(p: Seq<usize>, x: usize) -> int {
    choose|i: int| 0 <= i < p.len() && p[i] == x
}

/// The two parts of the cycle `p` cut along diagonal `d`, when both endpoints
/// lie on it and are neither neighbours on it nor its two ends: the first part
/// runs from the earlier endpoint to the later one, the second from the later
/// one round to the earlier one.
pub open spec fn cut_parts(p: Seq<usize>, d: Diagonal) -> Option<(Seq<usize>, Seq<usize>)> {
    if p.contains(d.u) && p.contains(d.v) {
        let a = position_in(p, d.u);
        let b = position_in(p, d.v);
        let first = if a < b {
            a
        } else {
            b
        };
        let second = if a < b {
            b
        } else {
            a
        };
        if second > first + 1 && !(first == 0 && second == p.len() - 1) {
            Some((p.subrange(first, second + 1), p.subrange(second, p.len() as int) + p.subrange(0, first + 1)))
        } else {
            None
        }
    } else {
        None
    }
}

/// One diagonal applied to a list of pieces: the first piece it cuts is
/// replaced, in place, by its two parts.
pub open spec fn split_step(ps: Seq<Seq<usize>>, d: Diagonal) -> Seq<Seq<usize>>
    decreases ps.len(),
{
    if ps.len() == 0 {
        ps
    } else {
        match cut_parts(ps[0], d) {
            Some((a, b)) => seq![a, b] + ps.drop_first(),
            None => seq![ps[0]] + split_step(ps.drop_first(), d),
        }
    }
}

/// The diagonals applied one after the other, each by [`split_step`].
pub open spec fn split_all(ps: Seq<Seq<usize>>, ds: Seq<Diagonal>) -> Seq<Seq<usize>>
    decreases ds.len(),
{
    if ds.len() == 0 {
        ps
    } else {
        split_step(split_all(ps, ds.drop_last()), ds.last())
    }
}

/// The index of the first piece from `i` on that diagonal `d` cuts, or the
/// number of pieces when there is none.
pub open spec fn first_cut_from(ps: Seq<Seq<usize>>, d: Diagonal, i: int) -> int
    decreases ps.len() - i,
{
    if i >= ps.len() {
        ps.len() as int
    } else if cut_parts(ps[i], d) is Some {
        i
    } else {
        first_cut_from(ps, d, i + 1)
    }
}

/// One diagonal applied to a list of pieces: the first piece it cuts is
/// replaced by the first part, and the second part is appended to the list.
pub open spec fn split_step_appending(ps: Seq<Seq<usize>>, d: Diagonal) -> Seq<Seq<usize>> {
    let k = first_cut_from(ps, d, 0);
    if 0 <= k < ps.len() {
        match cut_parts(ps[k], d) {
            Some((a, b)) => ps.update(k, a).push(b),
            None => ps,
        }
    } else {
        ps
    }
}

/// The diagonals applied one after the other, each by [`split_step_appending`].
pub open spec fn split_all_appending(ps: Seq<Seq<usize>>, ds: Seq<Diagonal>) -> Seq<Seq<usize>>
    decreases ds.len(),
{
    if ds.len() == 0 {
        ps
    } else {
        split_step_appending(split_all_appending(ps, ds.drop_last()), ds.last())
    }
}

/// While no piece before `i` is cut, [`split_step`] keeps them and cuts from `i` on.
proof fn lemma_split_step_prefix(ps: Seq<Seq<usize>>, d: Diagonal, i: int)
    requires
        0 <= i <= ps.len(),
        forall|k: int| 0 <= k < i ==> cut_parts(#[trigger] ps[k], d) is None,
    ensures
        split_step(ps, d) == ps.take(i) + split_step(ps.skip(i), d),
    decreases i,
{
    if i == 0 {
        assert(ps.take(0) + split_step(ps.skip(0), d) =~= split_step(ps, d)) by {
            assert(ps.skip(0) =~= ps);
        }
    } else {
        let rest = ps.drop_first();
        assert forall|k: int| 0 <= k < i - 1 implies cut_parts(#[trigger] rest[k], d) is None by {
            assert(rest[k] == ps[k + 1]);
        }
        lemma_split_step_prefix(rest, d, i - 1);
        assert(cut_parts(ps[0], d) is None);
        assert(rest.skip(i - 1) =~= ps.skip(i));
        assert(ps.take(i) =~= seq![ps[0]] + rest.take(i - 1));
        assert(split_step(ps, d) == seq![ps[0]] + split_step(rest, d));
        assert(seq![ps[0]] + (rest.take(i - 1) + split_step(ps.skip(i), d)) =~= ps.take(i) + split_step(
            ps.skip(i),
            d,
        ));
    }
}

/// The first piece that `d` cuts is replaced by its two parts.
proof fn lemma_split_step_at(ps: Seq<Seq<usize>>, d: Diagonal, i: int, a: Seq<usize>, b: Seq<usize>)
    requires
        0 <= i < ps.len(),
        forall|k: int| 0 <= k < i ==> cut_parts(#[trigger] ps[k], d) is None,
        cut_parts(ps[i], d) == Some((a, b)),
    ensures
        split_step(ps, d) == ps.take(i) + seq![a, b] + ps.skip(i + 1),
{
    lemma_split_step_prefix(ps, d, i);
    let tail = ps.skip(i);
    assert(tail[0] == ps[i]);
    assert(tail.drop_first() =~= ps.skip(i + 1));
    assert(ps.take(i) + (seq![a, b] + ps.skip(i + 1)) =~= ps.take(i) + seq![a, b] + ps.skip(i + 1));
}

/// When `d` cuts no piece, [`split_step`] changes nothing.
proof fn lemma_split_step_none(ps: Seq<Seq<usize>>, d: Diagonal)
    requires
        forall|k: int| 0 <= k < ps.len() ==> cut_parts(#[trigger] ps[k], d) is None,
    ensures
        split_step(ps, d) == ps,
{
    lemma_split_step_prefix(ps, d, ps.len() as int);
    assert(ps.skip(ps.len() as int) =~= Seq::<Seq<usize>>::empty());
    assert(ps.take(ps.len() as int) + Seq::<Seq<usize>>::empty() =~= ps);
}

/// [`first_cut_from`] is the first index at or after `i` whose piece `d` cuts.
proof fn lemma_first_cut(ps: Seq<Seq<usize>>, d: Diagonal, i: int, k: int)
    requires
        0 <= i <= k <= ps.len(),
        forall|j: int| i <= j < k ==> cut_parts(#[trigger] ps[j], d) is None,
        k < ps.len() ==> cut_parts(ps[k], d) is Some,
    ensures
        first_cut_from(ps, d, i) == k,
    decreases k - i,
{
    if i < k {
        lemma_first_cut(ps, d, i + 1, k);
    }
}

/// Splits the cycle `sub` along the diagonal `d`, when both endpoints lie on it
/// and are neither neighbours on the cycle nor its two ends: the first part runs
/// from the earlier endpoint to the later one, the second from the later one
/// round to the earlier one.
fn try_split(sub: &Vec<usize>, d: Diagonal, Ghost(n): Ghost<int>) -> (r: Option<(Vec<usize>, Vec<usize>)>)
    requires
        valid_piece(sub@, n),
    ensures
        match r {
            Some((a, b)) => {
                &&& cut_parts(sub@, d) == Some((a@, b@))
                &&& valid_piece(a@, n)
                &&& valid_piece(b@, n)
                &&& (a@.len() - 2) + (b@.len() - 2) == sub@.len() - 2
            },
            None => cut_parts(sub@, d) is None,
        },
{
    let len = sub.len();
    let pu = position_of(sub, d.u);
    let pv = position_of(sub, d.v);
    proof {
        if let Some(i) = pu {
            assert(sub@.contains(d.u));
            let j = position_in(sub@, d.u);
            assert(sub@[j] == d.u);
            assert(j == i as int);
        }
        if let Some(i) = pv {
            assert(sub@.contains(d.v));
            let j = position_in(sub@, d.v);
            assert(sub@[j] == d.v);
            assert(j == i as int);
        }
    }
    match (pu, pv) {
        (Some(pos_u), Some(pos_v)) => {
            let (first, second) = if pos_u < pos_v {
                (pos_u, pos_v)
            } else {
                (pos_v, pos_u)
            };
            if second > first + 1 && !(first == 0 && second == len - 1) {
                let mut sub1 = Vec::new();
                extend_with_range(&mut sub1, sub, first, second + 1);
                let mut sub2 = Vec::new();
                extend_with_range(&mut sub2, sub, second, len);
                extend_with_range(&mut sub2, sub, 0, first + 1);
                proof {
                    lemma_split_parts(sub@, n, first as int, second as int);
                    assert(sub1@ =~= sub@.subrange(first as int, second + 1));
                    assert(sub2@ =~= sub@.subrange(second as int, len as int) + sub@.subrange(0, first + 1));
                }
                Some((sub1, sub2))
            } else {
                None
            }
        },
        _ => None,
    }
}

/// Decomposes the `n`-gon into pieces along the diagonals, in order: each
/// diagonal splits the first piece on which it is a proper chord, and the two
/// parts take that piece's place in the list.
pub fn split_along_diagonals(n: usize, diagonals: &[Diagonal]) -> (pieces: Vec<Vec<usize>>)
    requires
        n >= 3,
    ensures
        piece_views(pieces@) == split_all(seq![identity_cycle(n as int)], diagonals@),
        valid_pieces(piece_views(pieces@), n as int),
        total_excess(piece_views(pieces@)) == n - 2,
{
    let ghost init = seq![identity_cycle(n as int)];
    let mut subpolys: Vec<Vec<usize>> = Vec::new();
    subpolys.push(identity_order(n));
    proof {
        lemma_identity_cycle_valid(n as int);
        lemma_views_push(Seq::empty(), subpolys@[0]);
        lemma_excess_push(Seq::empty(), identity_cycle(n as int));
        assert(piece_views(Seq::<Vec<usize>>::empty()) =~= Seq::<Seq<usize>>::empty());
        assert(subpolys@ =~= Seq::<Vec<usize>>::empty().push(subpolys@[0]));
        assert(piece_views(subpolys@) =~= init);
        assert(diagonals@.take(0) =~= Seq::<Diagonal>::empty());
    }
    let mut k: usize = 0;
    while k < diagonals.len()
        invariant
            k <= diagonals@.len(),
            init == seq![identity_cycle(n as int)],
            piece_views(subpolys@) == split_all(init, diagonals@.take(k as int)),
            valid_pieces(piece_views(subpolys@), n as int),
            total_excess(piece_views(subpolys@)) == n - 2,
        decreases diagonals@.len() - k,
    {
        let diag = diagonals[k];
        let ghost views = piece_views(subpolys@);
        let mut next_subs: Vec<Vec<usize>> = Vec::new();
        let mut split = false;
        let mut i: usize = 0;
        assert(piece_views(next_subs@) =~= Seq::<Seq<usize>>::empty());
        assert(piece_views(subpolys@).take(0) =~= Seq::<Seq<usize>>::empty());
        while i < subpolys.len()
            invariant
                i <= subpolys@.len(),
                views == piece_views(subpolys@),
                valid_pieces(piece_views(subpolys@), n as int),
                valid_pieces(piece_views(next_subs@), n as int),
                total_excess(piece_views(next_subs@)) == total_excess(
                    piece_views(subpolys@).take(i as int),
                ),
                !split ==> piece_views(next_subs@) == views.take(i as int),
                !split ==> forall|j: int| 0 <= j < i ==> cut_parts(#[trigger] views[j], diag) is None,
                split ==> piece_views(next_subs@) + views.skip(i as int) == split_step(views, diag),
            decreases subpolys@.len() - i,
        {
            assert(views.take(i + 1).drop_last() =~= views.take(i as int));
            assert(views[i as int] == subpolys@[i as int]@);
            assert(valid_piece(views[i as int], n as int));
            assert(views.skip(i as int) =~= seq![views[i as int]] + views.skip(i + 1));
            let mut done = false;
            if !split {
                match try_split(&subpolys[i], diag, Ghost(n as int)) {
                    Some((sub1, sub2)) => {
                        proof {
                            lemma_split_step_at(views, diag, i as int, sub1@, sub2@);
                            lemma_views_push(next_subs@, sub1);
                            lemma_excess_push(piece_views(next_subs@), sub1@);
                            lemma_views_push(next_subs@.push(sub1), sub2);
                            lemma_excess_push(piece_views(next_subs@.push(sub1)), sub2@);
                            assert(views.take(i as int).push(sub1@).push(sub2@) + views.skip(i + 1)
                                =~= views.take(i as int) + seq![sub1@, sub2@] + views.skip(i + 1));
                        }
                        next_subs.push(sub1);
                        next_subs.push(sub2);
                        split = true;
                        done = true;
                    },
                    None => {},
                }
            }
            if !done {
                let c = copy_cycle(&subpolys[i]);
                proof {
                    lemma_views_push(next_subs@, c);
                    lemma_excess_push(piece_views(next_subs@), c@);
                    if split {
                        assert(piece_views(next_subs@).push(c@) + views.skip(i + 1) =~= piece_views(
                            next_subs@,
                        ) + views.skip(i as int));
                    } else {
                        assert(views.take(i + 1) =~= views.take(i as int).push(c@));
                    }
                }
                next_subs.push(c);
            }
            i += 1;
        }
        proof {
            assert(views.take(subpolys@.len() as int) =~= views);
            if split {
                assert(views.skip(subpolys@.len() as int) =~= Seq::<Seq<usize>>::empty());
                assert(piece_views(next_subs@) + Seq::<Seq<usize>>::empty() =~= piece_views(next_subs@));
            } else {
                lemma_split_step_none(views, diag);
            }
            assert(diagonals@.take(k + 1).drop_last() =~= diagonals@.take(k as int));
            assert(diagonals@.take(k + 1).last() == diag);
        }
        subpolys = next_subs;
        k += 1;
    }
    assert(diagonals@.take(diagonals@.len() as int) =~= diagonals@);
    subpolys
}

proof fn lemma_remove_keeps(s: Seq<usize>, i: int, c: Seq<usize>)
    requires
        0 <= i < s.len(),
        forall|x: usize| s.contains(x) ==> c.contains(x),
        c.no_duplicates() ==> s.no_duplicates(),
    ensures
        forall|x: usize| s.remove(i).contains(x) ==> c.contains(x),
        c.no_duplicates() ==> s.remove(i).no_duplicates(),
{
    let r = s.remove(i);
    assert forall|x: usize| r.contains(x) implies c.contains(x) by {
        let w = choose|w: int| 0 <= w < r.len() && #[trigger] r[w] == x;
        if w < i {
            assert(s[w] == x);
        } else {
            assert(s[w + 1] == x);
        }
        assert(s.contains(x));
    }
    if c.no_duplicates() {
        assert forall|a: int, b: int| 0 <= a < r.len() && 0 <= b < r.len() && a != b implies #[trigger] r[a]
            != #[trigger] r[b] by {
            let oa = if a < i { a } else { a + 1 };
            let ob = if b < i { b } else { b + 1 };
            assert(r[a] == s[oa]);
            assert(r[b] == s[ob]);
        }
    }
}

proof fn lemma_cycle_triangle(r: Seq<usize>, c: Seq<usize>, a: int, b: int, d: int)
    requires
        0 <= a < r.len(),
        0 <= b < r.len(),
        0 <= d < r.len(),
        a != b,
        b != d,
        a != d,
        forall|x: usize| r.contains(x) ==> c.contains(x),
        c.no_duplicates() ==> r.no_duplicates(),
    ensures
        corners_in([r[a], r[b], r[d]], c),
        c.no_duplicates() ==> distinct_corners([r[a], r[b], r[d]]),
{
    let t = [r[a], r[b], r[d]];
    assert(t[0] == r[a] && t[1] == r[b] && t[2] == r[d]);
    assert(r.contains(r[a]));
    assert(r.contains(r[b]));
    assert(r.contains(r[d]));
}

/// The ear of the cycle `c` at position `i`: the triangle of its previous,
/// own and next vertex round the cycle.
pub open spec fn ear_at(c: Seq<usize>, i: int) -> [usize; 3] {
    [
        c[if i == 0 {
            c.len() - 1
        } else {
            i - 1
        }],
        c[i],
        c[if i + 1 == c.len() {
            0
        } else {
            i + 1
        }],
    ]
}

/// `ts` triangulates the cycle `c` by cutting off the ears at positions
/// `cuts`, one after another: the first triangle is the ear of `c` at
/// `cuts[0]` and the rest triangulate `c` without the tip of that ear; a cycle
/// of three vertices is its own triangle, and a shorter one has none.
pub open spec fn ear_cuts(c: Seq<usize>, ts: Seq<[usize; 3]>, cuts: Seq<int>) -> bool
    decreases c.len(),
{
    if c.len() < 3 {
        ts.len() == 0 && cuts.len() == 0
    } else if c.len() == 3 {
        ts == seq![[c[0], c[1], c[2]]] && cuts.len() == 0
    } else {
        &&& ts.len() > 0
        &&& cuts.len() > 0
        &&& 0 <= cuts[0] < c.len()
        &&& ts[0] == ear_at(c, cuts[0])
        &&& ear_cuts(c.remove(cuts[0]), ts.drop_first(), cuts.drop_first())
    }
}

/// `ts` triangulates the cycle `c` by cutting off ears one after another.
pub open spec fn ear_sequence(c: Seq<usize>, ts: Seq<[usize; 3]>) -> bool {
    exists|cuts: Seq<int>| #[trigger] ear_cuts(c, ts, cuts)
}

/// Cutting the ear at `i` off a cycle of more than three vertices, then
/// triangulating the rest, triangulates the cycle.
proof fn lemma_ear_step(c: Seq<usize>, i: int, ts: Seq<[usize; 3]>, cuts: Seq<int>)
    requires
        c.len() > 3,
        0 <= i < c.len(),
        ear_cuts(c.remove(i), ts, cuts),
    ensures
        ear_cuts(c, seq![ear_at(c, i)] + ts, seq![i] + cuts),
{
    let ts1 = seq![ear_at(c, i)] + ts;
    let cuts1 = seq![i] + cuts;
    assert(ts1.drop_first() =~= ts);
    assert(cuts1.drop_first() =~= cuts);
}

/// The position after `i` round a cycle of `m` vertices.
pub open spec fn after(i: int, m: int) -> int {
    if i + 1 == m {
        0
    } else {
        i + 1
    }
}

/// `a` then `b` are consecutive round the cycle `c`: `(a, b)` is one of its
/// boundary edges.
pub open spec fn boundary_edge(c: Seq<usize>, a: usize, b: usize) -> bool {
    exists|i: int| 0 <= i < c.len() && #[trigger] c[i] == a && c[after(i, c.len() as int)] == b
}

/// The triangle `t`, walked from corner to corner, goes from `a` to `b`.
pub open spec fn has_side(t: [usize; 3], a: usize, b: usize) -> bool {
    (t[0] == a && t[1] == b) || (t[1] == a && t[2] == b) || (t[2] == a && t[0] == b)
}

/// The number of triangles of `ts` with a side from `a` to `b`.
pub open spec fn side_count(ts: Seq<[usize; 3]>, a: usize, b: usize) -> int
    decreases ts.len(),
{
    if ts.len() == 0 {
        0
    } else {
        side_count(ts.drop_first(), a, b) + if has_side(ts[0], a, b) {
            1int
        } else {
            0int
        }
    }
}

proof fn lemma_ear_corners(c: Seq<usize>, ts: Seq<[usize; 3]>, cuts: Seq<int>)
    requires
        ear_cuts(c, ts, cuts),
    ensures
        forall|k: int, m: int| 0 <= k < ts.len() && 0 <= m < 3 ==> c.contains(#[trigger] ts[k][m]),
    decreases c.len(),
{
    if c.len() == 3 {
        assert forall|k: int, m: int| 0 <= k < ts.len() && 0 <= m < 3 implies c.contains(#[trigger] ts[k][m]) by {
            assert(c[m] == ts[k][m]);
        }
    } else if c.len() > 3 {
        let j = cuts[0];
        let r = c.remove(j);
        lemma_ear_corners(r, ts.drop_first(), cuts.drop_first());
        assert forall|k: int, m: int| 0 <= k < ts.len() && 0 <= m < 3 implies c.contains(#[trigger] ts[k][m]) by {
            if k == 0 {
                let e = ear_at(c, j);
                assert(ts[0] == e);
                let p = if j == 0 { c.len() - 1 } else { j - 1 };
                let q = if j + 1 == c.len() { 0 } else { j + 1 };
                if m == 0 {
                    assert(c[p] == ts[k][m]);
                } else if m == 1 {
                    assert(c[j] == ts[k][m]);
                } else {
                    assert(c[q] == ts[k][m]);
                }
            } else {
                assert(ts.drop_first()[k - 1] == ts[k]);
                assert(r.contains(ts[k][m]));
                let w = choose|w: int| 0 <= w < r.len() && r[w] == ts[k][m];
                if w < j {
                    assert(c[w] == ts[k][m]);
                } else {
                    assert(c[w + 1] == ts[k][m]);
                }
            }
        }
    }
}

proof fn lemma_side_count_absent(ts: Seq<[usize; 3]>, a: usize, b: usize, x: usize)
    requires
        x == a || x == b,
        forall|k: int, m: int| 0 <= k < ts.len() && 0 <= m < 3 ==> #[trigger] ts[k][m] != x,
    ensures
        side_count(ts, a, b) == 0,
    decreases ts.len(),
{
    if ts.len() > 0 {
        assert forall|k: int, m: int| 0 <= k < ts.drop_first().len() && 0 <= m < 3 implies #[trigger] ts.drop_first()[k][m]
            != x by {
            assert(ts.drop_first()[k] == ts[k + 1]);
            assert(ts[k + 1][m] != x);
        }
        lemma_side_count_absent(ts.drop_first(), a, b, x);
        assert(ts[0][0] != x && ts[0][1] != x && ts[0][2] != x);
    }
}

/// A boundary edge of `c` that does not touch the tip `c[j]` is a boundary
/// edge of `c` without its tip.
proof fn lemma_boundary_after_remove(c: Seq<usize>, j: int, a: usize, b: usize)
    requires
        c.len() > 3,
        0 <= j < c.len(),
        boundary_edge(c, a, b),
        a != c[j],
        b != c[j],
    ensures
        boundary_edge(c.remove(j), a, b),
{
    let m = c.len() as int;
    let r = c.remove(j);
    let i = choose|i: int| 0 <= i < c.len() && #[trigger] c[i] == a && c[after(i, m)] == b;
    let ni = after(i, m);
    assert(i != j);
    assert(ni != j);
    let i2 = if i < j { i } else { i - 1 };
    assert(r[i2] == a);
    if ni == 0 {
        // i is the last position, j is neither it nor 0.
        assert(i == m - 1);
        assert(i2 == m - 2);
        assert(after(i2, m - 1) == 0);
        assert(r[0] == c[0]);
    } else {
        assert(ni == i + 1);
        if i + 1 < j {
            assert(after(i2, m - 1) == i + 1);
            assert(r[i + 1] == c[i + 1]);
        } else {
            // j < i, so both shift down by one.
            assert(j < i);
            assert(after(i2, m - 1) == i);
            assert(r[i] == c[i + 1]);
        }
    }
    assert(r[after(i2, r.len() as int)] == b);
}

/// Every boundary edge of a cycle of distinct vertices lies on exactly one
/// triangle of an ear-clipping triangulation of it, walked the same way
/// round.
pub proof fn lemma_ear_cuts_cover_boundary(c: Seq<usize>, ts: Seq<[usize; 3]>, cuts: Seq<int>, a: usize, b: usize)
    requires
        c.no_duplicates(),
        c.len() >= 3,
        ear_cuts(c, ts, cuts),
        boundary_edge(c, a, b),
    ensures
        side_count(ts, a, b) == 1,
    decreases c.len(),
{
    let m = c.len() as int;
    let i = choose|i: int| 0 <= i < c.len() && #[trigger] c[i] == a && c[after(i, m)] == b;
    if m == 3 {
        assert(ts.drop_first() =~= Seq::<[usize; 3]>::empty());
        assert(side_count(ts.drop_first(), a, b) == 0);
        assert(has_side(ts[0], a, b));
    } else {
        let j = cuts[0];
        let r = c.remove(j);
        let rest = ts.drop_first();
        let e = ear_at(c, j);
        let p = if j == 0 { m - 1 } else { j - 1 };
        let q = if j + 1 == m { 0 } else { j + 1 };
        lemma_ear_corners(r, rest, cuts.drop_first());
        lemma_remove_keeps(c, j, c);
        assert(r.no_duplicates());
        assert(!r.contains(c[j])) by {
            if r.contains(c[j]) {
                let w = choose|w: int| 0 <= w < r.len() && r[w] == c[j];
                if w < j {
                    assert(c[w] == c[j]);
                } else {
                    assert(c[w + 1] == c[j]);
                }
            }
        }
        assert forall|k: int, mm: int| 0 <= k < rest.len() && 0 <= mm < 3 implies #[trigger] rest[k][mm] != c[j] by {
            assert(r.contains(rest[k][mm]));
        }
        if a == c[j] || b == c[j] {
            let x = c[j];
            lemma_side_count_absent(rest, a, b, x);
            // The edge is one of the two sides of the ear at its tip.
            if a == c[j] {
                assert(i == j);
                assert(b == c[q]);
            } else {
                assert(after(i, m) == j);
                assert(i == p);
            }
            assert(has_side(e, a, b));
        } else {
            lemma_boundary_after_remove(c, j, a, b);
            lemma_ear_cuts_cover_boundary(r, rest, cuts.drop_first(), a, b);
            // The third side of the ear, from c[q] to c[p], is no boundary edge.
            assert(!has_side(e, a, b)) by {
                if has_side(e, a, b) {
                    assert(a == c[q] && b == c[p]);
                    assert(i == q);
                    assert(after(q, m) == p);
                }
            }
        }
    }
}

/// 1 when `b` holds, else 0.
pub open spec fn one_if(b: bool) -> int {
    if b {
        1
    } else {
        0
    }
}

/// The boundary edges of `c` without its vertex at `j` are those of `c` that
/// do not touch it, and the edge that closes the gap.
proof fn lemma_boundary_remove_exact(c: Seq<usize>, j: int, a: usize, b: usize)
    requires
        c.len() > 3,
        c.no_duplicates(),
        0 <= j < c.len(),
    ensures
        boundary_edge(c.remove(j), a, b) <==> ((boundary_edge(c, a, b) && a != c[j] && b != c[j]) || (a
            == c[if j == 0 {
            c.len() - 1
        } else {
            j - 1
        }] && b == c[if j + 1 == c.len() {
            0
        } else {
            j + 1
        }])),
{
    let m = c.len() as int;
    let r = c.remove(j);
    let p = if j == 0 { m - 1 } else { j - 1 };
    let q = if j + 1 == m { 0 } else { j + 1 };
    // The gap closes: c[p] is followed by c[q] in r.
    let p2 = if p < j { p } else { p - 1 };
    assert(r[p2] == c[p]);
    if j == 0 {
        assert(p2 == m - 2);
        assert(after(p2, m - 1) == 0);
        assert(r[0] == c[1]);
    } else if j == m - 1 {
        assert(p2 == m - 2);
        assert(after(p2, m - 1) == 0);
        assert(r[0] == c[0]);
    } else {
        assert(after(p2, m - 1) == j);
        assert(r[j] == c[j + 1]);
    }
    assert(r[after(p2, r.len() as int)] == c[q]);
    if a == c[p] && b == c[q] {
        assert(boundary_edge(r, a, b));
    }
    if boundary_edge(c, a, b) && a != c[j] && b != c[j] {
        lemma_boundary_after_remove(c, j, a, b);
    }
    if boundary_edge(r, a, b) {
        let i2 = choose|i2: int| 0 <= i2 < r.len() && #[trigger] r[i2] == a && r[after(i2, m - 1)] == b;
        let i = if i2 < j { i2 } else { i2 + 1 };
        assert(c[i] == a);
        assert(a != c[j]) by {
            assert(i != j);
        }
        let n2 = after(i2, m - 1);
        let n1 = if n2 < j { n2 } else { n2 + 1 };
        assert(c[n1] == b);
        assert(b != c[j]) by {
            assert(n1 != j);
        }
        if i == p {
            // a is c[p], and b is the next vertex in r: c[q].
            assert(i2 == p2);
            assert(n1 == q);
        } else {
            assert(n1 == after(i, m));
            assert(boundary_edge(c, a, b));
        }
    }
}

/// The sides of the triangles of an ear-clipping triangulation of a cycle of
/// distinct vertices balance: walked one way or the other, each pair of
/// vertices is a side as often as the reverse pair is, but for the boundary
/// edges of the cycle. So every diagonal the triangulation uses is a side of
/// as many triangles on one side of it as on the other.
pub proof fn lemma_ear_cuts_sides_balance(c: Seq<usize>, ts: Seq<[usize; 3]>, cuts: Seq<int>, a: usize, b: usize)
    requires
        c.no_duplicates(),
        c.len() >= 3,
        ear_cuts(c, ts, cuts),
    ensures
        side_count(ts, a, b) + one_if(boundary_edge(c, b, a)) == side_count(ts, b, a) + one_if(
            boundary_edge(c, a, b),
        ),
    decreases c.len(),
{
    let m = c.len() as int;
    if m == 3 {
        assert(ts.drop_first() =~= Seq::<[usize; 3]>::empty());
        let t = ts[0];
        assert(t == [c[0], c[1], c[2]]);
        assert(after(0, 3) == 1 && after(1, 3) == 2 && after(2, 3) == 0);
        if has_side(t, a, b) {
            if a == c[0] {
                assert(boundary_edge(c, c[0], c[1]));
            } else if a == c[1] {
                assert(boundary_edge(c, c[1], c[2]));
            } else {
                assert(boundary_edge(c, c[2], c[0]));
            }
        }
        if has_side(t, b, a) {
            if b == c[0] {
                assert(boundary_edge(c, c[0], c[1]));
            } else if b == c[1] {
                assert(boundary_edge(c, c[1], c[2]));
            } else {
                assert(boundary_edge(c, c[2], c[0]));
            }
        }
        if boundary_edge(c, a, b) {
            let i = choose|i: int| 0 <= i < c.len() && #[trigger] c[i] == a && c[after(i, m)] == b;
            assert(has_side(t, a, b));
        }
        if boundary_edge(c, b, a) {
            let i = choose|i: int| 0 <= i < c.len() && #[trigger] c[i] == b && c[after(i, m)] == a;
            assert(has_side(t, b, a));
        }
        assert(side_count(ts.drop_first(), a, b) == 0);
        assert(side_count(ts.drop_first(), b, a) == 0);
        assert(side_count(ts, a, b) == one_if(has_side(t, a, b)));
        assert(side_count(ts, b, a) == one_if(has_side(t, b, a)));
        assert(side_count(ts, a, b) + one_if(boundary_edge(c, b, a)) == side_count(ts, b, a) + one_if(
            boundary_edge(c, a, b),
        ));
    } else {
        let j = cuts[0];
        let r = c.remove(j);
        let rest = ts.drop_first();
        let e = ts[0];
        let p = if j == 0 { m - 1 } else { j - 1 };
        let q = if j + 1 == m { 0 } else { j + 1 };
        assert(e == [c[p], c[j], c[q]]);
        assert(p != j && q != j && p != q);
        assert(c[p] != c[j] && c[q] != c[j] && c[p] != c[q]);
        lemma_remove_keeps(c, j, c);
        lemma_ear_cuts_sides_balance(r, rest, cuts.drop_first(), a, b);
        lemma_boundary_remove_exact(c, j, a, b);
        lemma_boundary_remove_exact(c, j, b, a);
        // The two sides of the ear at its tip are boundary edges of c.
        assert(c[after(p, m)] == c[j]);
        assert(c[after(j, m)] == c[q]);
        assert(boundary_edge(c, c[p], c[j]));
        assert(boundary_edge(c, c[j], c[q]));
        // A boundary edge of c touching the tip is one of those two.
        if boundary_edge(c, a, b) && (a == c[j] || b == c[j]) {
            let i = choose|i: int| 0 <= i < c.len() && #[trigger] c[i] == a && c[after(i, m)] == b;
            if a == c[j] {
                assert(i == j);
            } else {
                assert(after(i, m) == j);
                assert(i == p);
            }
        }
        if boundary_edge(c, b, a) && (a == c[j] || b == c[j]) {
            let i = choose|i: int| 0 <= i < c.len() && #[trigger] c[i] == b && c[after(i, m)] == a;
            if b == c[j] {
                assert(i == j);
            } else {
                assert(after(i, m) == j);
                assert(i == p);
            }
        }
        // c[q] to c[p] is no boundary edge of c, as c has more than three vertices.
        assert(!boundary_edge(c, c[q], c[p])) by {
            if boundary_edge(c, c[q], c[p]) {
                let i = choose|i: int| 0 <= i < c.len() && #[trigger] c[i] == c[q] && c[after(i, m)] == c[p];
                assert(i == q);
                assert(c[after(q, m)] == c[p]);
            }
        }
        assert(side_count(ts, a, b) == side_count(rest, a, b) + one_if(has_side(e, a, b)));
        assert(side_count(ts, b, a) == side_count(rest, b, a) + one_if(has_side(e, b, a)));
        assert(one_if(boundary_edge(c, a, b)) == one_if(boundary_edge(r, a, b)) - one_if(a == c[p] && b == c[q])
            + one_if(a == c[p] && b == c[j]) + one_if(a == c[j] && b == c[q]));
        assert(one_if(boundary_edge(c, b, a)) == one_if(boundary_edge(r, b, a)) - one_if(b == c[p] && a == c[q])
            + one_if(b == c[p] && a == c[j]) + one_if(b == c[j] && a == c[q]));
    }
}

/// Triangulates the cycle of vertices `cycle` by ear clipping: repeatedly cuts
/// off the first convex corner whose triangle holds no other vertex of the
/// cycle, or, when there is none, the sharpest convex corner (the first corner
/// when no corner turns left). Every step cuts one corner, so a cycle of
/// `m >= 3` vertices always gives `m - 2` triangles.
pub fn clip_ears<G: PolygonGeometry>(polygon: &G, cycle: &[usize]) -> (tris: Vec<[usize; 3]>)
    ensures
        cycle@.len() >= 3 ==> tris@.len() == cycle@.len() - 2,
        cycle@.len() < 3 ==> tris@.len() == 0,
        triangles_from(tris@, cycle@),
        ear_sequence(cycle@, tris@),
        cycle@.no_duplicates() && cycle@.len() >= 3 ==> forall|a: usize, b: usize|
            #[trigger] boundary_edge(cycle@, a, b) ==> side_count(tris@, a, b) == 1,
        cycle@.no_duplicates() && cycle@.len() >= 3 ==> forall|a: usize, b: usize|
            #[trigger] side_count(tris@, a, b) + one_if(boundary_edge(cycle@, b, a)) == side_count(tris@, b, a)
                + one_if(boundary_edge(cycle@, a, b)),
{
    let mut remaining: Vec<usize> = Vec::new();
    let mut k: usize = 0;
    while k < cycle.len()
        invariant
            k <= cycle@.len(),
            remaining@ == cycle@.take(k as int),
        decreases cycle@.len() - k,
    {
        remaining.push(cycle[k]);
        assert(cycle@.take(k + 1) =~= cycle@.take(k as int).push(cycle@[k as int]));
        k += 1;
    }
    assert(cycle@.take(cycle@.len() as int) =~= cycle@);
    let mut triangles: Vec<[usize; 3]> = Vec::new();
    let ghost mut cuts: Seq<int> = Seq::empty();
    proof {
        assert forall|ts: Seq<[usize; 3]>, js: Seq<int>| #[trigger] ear_cuts(remaining@, ts, js) implies ear_cuts(
            cycle@,
            triangles@ + ts,
            cuts + js,
        ) by {
            assert(triangles@ + ts =~= ts);
            assert(cuts + js =~= js);
        }
    }
    while remaining.len() > 3
        invariant
            triangles@.len() + remaining@.len() == cycle@.len(),
            cycle@.len() >= 3 ==> remaining@.len() >= 3,
            cycle@.len() < 3 ==> triangles@.len() == 0,
            forall|x: usize| remaining@.contains(x) ==> cycle@.contains(x),
            cycle@.no_duplicates() ==> remaining@.no_duplicates(),
            triangles_from(triangles@, cycle@),
            cycle@.len() < 3 ==> remaining@ == cycle@,
            forall|ts: Seq<[usize; 3]>, js: Seq<int>|
                #[trigger] ear_cuts(remaining@, ts, js) ==> ear_cuts(cycle@, triangles@ + ts, cuts + js),
        decreases remaining@.len(),
    {
        let m = remaining.len();
        let mut ear: Option<usize> = None;
        let mut i: usize = 0;
        while i < m && ear.is_none()
            invariant
                m == remaining@.len(),
                i <= m,
                ear matches Some(e) ==> e < m,
            decreases m - i, (if ear.is_none() { 1int } else { 0int }),
        {
            let prev = remaining[if i == 0 { m - 1 } else { i - 1 }];
            let curr = remaining[i];
            let next = remaining[if i + 1 == m { 0 } else { i + 1 }];
            if polygon.turn(prev, curr, next) == Turn::Left {
                let mut has_interior_point = false;
                let mut j: usize = 0;
                while j < m && !has_interior_point
                    invariant
                        m == remaining@.len(),
                        j <= m,
                    decreases m - j,
                {
                    let test_v = remaining[j];
                    if test_v != prev && test_v != curr && test_v != next {
                        if polygon.point_in_triangle(test_v, prev, curr, next) {
                            has_interior_point = true;
                        }
                    }
                    j += 1;
                }
                if !has_interior_point {
                    ear = Some(i);
                } else {
                    i += 1;
                }
            } else {
                i += 1;
            }
        }
        let idx = match ear {
            Some(e) => e,
            None => match polygon.sharpest_turn(remaining.as_slice()) {
                Some(b) => if b < m {
                    b
                } else {
                    0
                },
                None => 0,
            },
        };
        let pi = if idx == 0 { m - 1 } else { idx - 1 };
        let ni = if idx + 1 == m { 0 } else { idx + 1 };
        let prev = remaining[pi];
        let curr = remaining[idx];
        let next = remaining[ni];
        proof {
            lemma_cycle_triangle(remaining@, cycle@, pi as int, idx as int, ni as int);
            lemma_remove_keeps(remaining@, idx as int, cycle@);
        }
        let ghost r0 = remaining@;
        let ghost t0 = triangles@;
        let t = [prev, curr, next];
        proof {
            assert(t == ear_at(r0, idx as int));
        }
        triangles.push(t);
        remaining.remove(idx);
        proof {
            assert forall|ts: Seq<[usize; 3]>, js: Seq<int>| #[trigger] ear_cuts(remaining@, ts, js) implies ear_cuts(
                cycle@,
                triangles@ + ts,
                cuts.push(idx as int) + js,
            ) by {
                let ts1 = seq![t] + ts;
                let js1 = seq![idx as int] + js;
                assert(remaining@ == r0.remove(idx as int));
                lemma_ear_step(r0, idx as int, ts, js);
                assert(ear_cuts(r0, ts1, js1));
                assert(t0 + ts1 =~= triangles@ + ts);
                assert(cuts + js1 =~= cuts.push(idx as int) + js);
            }
        }
        proof {
            cuts = cuts.push(idx as int);
        }
    }
    if remaining.len() == 3 {
        proof {
            lemma_cycle_triangle(remaining@, cycle@, 0, 1, 2);
        }
        let last = [remaining[0], remaining[1], remaining[2]];
        proof {
            assert(ear_cuts(remaining@, seq![last], Seq::<int>::empty()));
            assert(triangles@ + seq![last] =~= triangles@.push(last));
            assert(cuts + Seq::<int>::empty() =~= cuts);
        }
        triangles.push(last);
    } else {
        proof {
            assert(ear_cuts(remaining@, Seq::<[usize; 3]>::empty(), Seq::<int>::empty()));
            assert(triangles@ + Seq::<[usize; 3]>::empty() =~= triangles@);
            assert(cuts + Seq::<int>::empty() =~= cuts);
        }
    }
    proof {
        assert(ear_cuts(cycle@, triangles@, cuts));
        if cycle@.no_duplicates() && cycle@.len() >= 3 {
            assert forall|a: usize, b: usize| #[trigger] boundary_edge(cycle@, a, b) implies side_count(
                triangles@,
                a,
                b,
            ) == 1 by {
                lemma_ear_cuts_cover_boundary(cycle@, triangles@, cuts, a, b);
            }
            assert forall|a: usize, b: usize| #[trigger] side_count(triangles@, a, b) + one_if(
                boundary_edge(cycle@, b, a),
            ) == side_count(triangles@, b, a) + one_if(boundary_edge(cycle@, a, b)) by {
                lemma_ear_cuts_sides_balance(cycle@, triangles@, cuts, a, b);
            }
        }
    }
    triangles
}

/// Triangulates a simple counter-clockwise cycle of vertex indices by ear clipping.
fn triangulate_simple_cycle<G: PolygonGeometry>(polygon: &G, cycle: &[usize]) -> (r: Result<
    Vec<[usize; 3]>,
    TriangulationError,
>)
    ensures
        r matches Ok(t) && t@.len() == (if cycle@.len() >= 3 {
            cycle@.len() - 2
        } else {
            0
        }) && triangles_from(t@, cycle@),
{
    Ok(clip_ears(polygon, cycle))
}

pub(crate) proof fn lemma_piece_triangles_valid(ts: Seq<[usize; 3]>, p: Seq<usize>, n: int)
    requires
        valid_piece(p, n),
        triangles_from(ts, p),
    ensures
        triangles_within(ts, n),
{
    assert forall|k: int| 0 <= k < ts.len() implies #[trigger] triangle_within(ts[k], n) by {
        assert(corners_in(ts[k], p));
        let t = ts[k];
        let w0 = choose|w: int| 0 <= w < p.len() && #[trigger] p[w] == t[0];
        let w1 = choose|w: int| 0 <= w < p.len() && #[trigger] p[w] == t[1];
        let w2 = choose|w: int| 0 <= w < p.len() && #[trigger] p[w] == t[2];
    }
}

pub(crate) proof fn lemma_valid_triangles_append(a: Seq<[usize; 3]>, b: Seq<[usize; 3]>, n: int)
    requires
        triangles_within(a, n),
        triangles_within(b, n),
    ensures
        triangles_within(a + b, n),
{
    assert forall|k: int| 0 <= k < (a + b).len() implies #[trigger] triangle_within((a + b)[k], n) by {
        if k < a.len() {
            assert((a + b)[k] == a[k]);
        } else {
            assert((a + b)[k] == b[k - a.len()]);
        }
    }
}

/// Decomposes the `n`-gon into pieces along the diagonals, in order: each
/// diagonal splits the first piece on which it is a proper chord; the first
/// part takes that piece's place and the second is appended to the list.
fn split_in_place(n: usize, diagonals: &[Diagonal]) -> (pieces: Vec<Vec<usize>>)
    requires
        n >= 3,
    ensures
        piece_views(pieces@) == split_all_appending(seq![identity_cycle(n as int)], diagonals@),
        valid_pieces(piece_views(pieces@), n as int),
        total_excess(piece_views(pieces@)) == n - 2,
{
    let ghost init = seq![identity_cycle(n as int)];
    let mut subpolygons: Vec<Vec<usize>> = Vec::new();
    subpolygons.push(identity_order(n));
    proof {
        lemma_identity_cycle_valid(n as int);
        lemma_views_push(Seq::empty(), subpolygons@[0]);
        lemma_excess_push(Seq::empty(), identity_cycle(n as int));
        assert(piece_views(Seq::<Vec<usize>>::empty()) =~= Seq::<Seq<usize>>::empty());
        assert(subpolygons@ =~= Seq::<Vec<usize>>::empty().push(subpolygons@[0]));
        assert(piece_views(subpolygons@) =~= init);
        assert(diagonals@.take(0) =~= Seq::<Diagonal>::empty());
    }
    let mut k: usize = 0;
    while k < diagonals.len()
        invariant
            k <= diagonals@.len(),
            init == seq![identity_cycle(n as int)],
            piece_views(subpolygons@) == split_all_appending(init, diagonals@.take(k as int)),
            valid_pieces(piece_views(subpolygons@), n as int),
            total_excess(piece_views(subpolygons@)) == n - 2,
        decreases diagonals@.len() - k,
    {
        let diag = diagonals[k];
        let ghost views = piece_views(subpolygons@);
        let mut found: Option<(usize, Vec<usize>, Vec<usize>)> = None;
        let mut idx: usize = 0;
        while idx < subpolygons.len() && found.is_none()
            invariant
                idx <= subpolygons@.len(),
                views == piece_views(subpolygons@),
                valid_pieces(piece_views(subpolygons@), n as int),
                forall|j: int| 0 <= j < idx ==> cut_parts(#[trigger] views[j], diag) is None,
                found matches Some((f, a, b)) ==> {
                    &&& f == idx
                    &&& f < subpolygons@.len()
                    &&& cut_parts(views[f as int], diag) == Some((a@, b@))
                    &&& valid_piece(a@, n as int)
                    &&& valid_piece(b@, n as int)
                    &&& (a@.len() - 2) + (b@.len() - 2) == subpolygons@[f as int]@.len() - 2
                },
            decreases subpolygons@.len() - idx, (if found.is_none() { 1int } else { 0int }),
        {
            assert(views[idx as int] == subpolygons@[idx as int]@);
            match try_split(&subpolygons[idx], diag, Ghost(n as int)) {
                Some((sub1, sub2)) => {
                    found = Some((idx, sub1, sub2));
                },
                None => {
                    idx += 1;
                },
            }
        }
        match found {
            Some((f, sub1, sub2)) => {
                proof {
                    assert(views[f as int] == subpolygons@[f as int]@);
                    lemma_first_cut(views, diag, 0, f as int);
                    lemma_views_update(subpolygons@, f as int, sub1);
                    lemma_excess_update(views, f as int, sub1@);
                    lemma_views_push(subpolygons@.update(f as int, sub1), sub2);
                    lemma_excess_push(views.update(f as int, sub1@), sub2@);
                }
                subpolygons.set(f, sub1);
                subpolygons.push(sub2);
            },
            None => {
                proof {
                    lemma_first_cut(views, diag, 0, views.len() as int);
                }
            },
        }
        proof {
            assert(diagonals@.take(k + 1).drop_last() =~= diagonals@.take(k as int));
            assert(diagonals@.take(k + 1).last() == diag);
        }
        k += 1;
    }
    assert(diagonals@.take(diagonals@.len() as int) =~= diagonals@);
    subpolygons
}

/// Message of the error raised when a triangulation does not have the
/// `expected` number of triangles, through std's `format!`: `lead`, the
/// expected count and the count `got`. Nothing is stated of the text.
#[verifier::external_body]
pub(crate) fn triangle_count_message(lead: &str, expected: usize, got: usize) -> String {
    format!("{} {} triangles, got {}", lead, expected, got)
}

/// Decomposes the polygon along non-crossing diagonals into subpolygons and
/// triangulates each: the linear monotone stack result is kept when its
/// triangles cover the piece by area, ear clipping is used otherwise.
fn triangulate_polygon_with_diagonals<G: PolygonGeometry>(
    polygon: &G,
    n: usize,
    diagonals: &[Diagonal],
) -> (r: Result<Vec<[usize; 3]>, TriangulationError>)
    requires
        n >= 3,
    ensures
        r matches Ok(t) && t@.len() == n - 2 && triangles_within(t@, n as int),
{
    let subpolygons = split_in_place(n, diagonals);
    let mut all_triangles: Vec<[usize; 3]> = Vec::new();
    let mut i: usize = 0;
    while i < subpolygons.len()
        invariant
            i <= subpolygons@.len(),
            valid_pieces(piece_views(subpolygons@), n as int),
            all_triangles@.len() == total_excess(piece_views(subpolygons@).take(i as int)),
            triangles_within(all_triangles@, n as int),
        decreases subpolygons@.len() - i,
    {
        let sub = &subpolygons[i];
        let ghost views = piece_views(subpolygons@);
        proof {
            assert(views[i as int] == sub@);
            assert(valid_piece(sub@, n as int));
            assert(views.take(i + 1).drop_last() =~= views.take(i as int));
        }
        let ghost before = all_triangles@;
        let mut success = false;
        match crate::monotone_sweep::triangulate_monotone_piece(polygon, sub.as_slice()) {
            Ok(mut tris) => {
                if polygon.triangles_match_area(sub.as_slice(), tris.as_slice()) {
                    proof {
                        lemma_piece_triangles_valid(tris@, sub@, n as int);
                        lemma_valid_triangles_append(all_triangles@, tris@, n as int);
                    }
                    all_triangles.append(&mut tris);
                    success = true;
                }
            },
            Err(_) => {},
        }
        if !success {
            let mut tris = triangulate_simple_cycle(polygon, sub.as_slice())?;
            proof {
                lemma_piece_triangles_valid(tris@, sub@, n as int);
                lemma_valid_triangles_append(all_triangles@, tris@, n as int);
            }
            all_triangles.append(&mut tris);
        }
        i += 1;
    }
    assert(piece_views(subpolygons@).take(subpolygons@.len() as int) =~= piece_views(subpolygons@));
    if all_triangles.len() != n - 2 {
        return Err(TriangulationError::InternalError(triangle_count_message("Expected", n - 2, all_triangles.len())));
    }
    Ok(all_triangles)
}

/// Whether the segment of `diag` crosses one of the recorded diagonals, as
/// `segments_cross` answers for each of them in turn; with none recorded,
/// nothing is crossed.
pub fn crosses_any<G: PolygonGeometry>(polygon: &G, diag: Diagonal, diags: &Vec<Diagonal>) -> (r: bool)
    ensures
        diags@.len() == 0 ==> !r,
{
    let mut i: usize = 0;
    while i < diags.len()
        invariant
            i <= diags@.len(),
        decreases diags@.len() - i,
    {
        let d = diags[i];
        if polygon.segments_cross(diag.u, diag.v, d.u, d.v) {
            return true;
        }
        i += 1;
    }
    false
}

/// Triangulates a counter-clockwise simple polygon from its visibility map
/// V(P) (Section 4.3): every chord leaving a vertex that is not strictly
/// convex proposes a diagonal to the nearer, then the farther, end of the edge
/// it hits; the first valid one that crosses no diagonal kept so far is kept,
/// and the polygon is then cut along the kept diagonals and triangulated. A
/// polygon of more than three vertices whose winding is not counter-clockwise
/// is refused as degenerate.
pub fn triangulate_from_visibility_map<G: PolygonGeometry>(
    polygon: &G,
    n: usize,
    visibility_map: &Submap<G::Point, G::Scalar>,
) -> (r: Result<Vec<[usize; 3]>, TriangulationError>)
    ensures
        n < 3 <==> r == Err::<Vec<[usize; 3]>, TriangulationError>(
            TriangulationError::PolygonTooSmall,
        ),
        n == 3 ==> (r matches Ok(t) && t@ == seq![[0usize, 1usize, 2usize]]),
        n >= 4 ==> (r is Ok || r == Err::<Vec<[usize; 3]>, TriangulationError>(
            TriangulationError::DegeneratePolygon,
        )),
        r matches Ok(t) ==> t@.len() == n - 2 && triangles_within(t@, n as int),
{
    if n < 4 {
        return triangulate_from_visibility_map_with_winding(polygon, n, visibility_map, Winding::CounterClockwise);
    }
    let winding = polygon.winding();
    triangulate_from_visibility_map_with_winding(polygon, n, visibility_map, winding)
}

/// [`triangulate_from_visibility_map`] once the winding of the polygon is
/// known: a polygon of more than three vertices is triangulated exactly when
/// its winding is counter-clockwise.
pub fn triangulate_from_visibility_map_with_winding<G: PolygonGeometry>(
    polygon: &G,
    n: usize,
    visibility_map: &Submap<G::Point, G::Scalar>,
    winding: Winding,
) -> (r: Result<Vec<[usize; 3]>, TriangulationError>)
    ensures
        n < 3 <==> r == Err::<Vec<[usize; 3]>, TriangulationError>(
            TriangulationError::PolygonTooSmall,
        ),
        n == 3 ==> (r matches Ok(t) && t@ == seq![[0usize, 1usize, 2usize]]),
        n >= 4 ==> (r is Ok <==> winding == Winding::CounterClockwise),
        n >= 4 && winding != Winding::CounterClockwise ==> r == Err::<Vec<[usize; 3]>, TriangulationError>(
            TriangulationError::DegeneratePolygon,
        ),
        r matches Ok(t) ==> t@.len() == n - 2 && triangles_within(t@, n as int),
{
    if n < 3 {
        return Err(TriangulationError::PolygonTooSmall);
    }
    if n == 3 {
        let t = vec![[0usize, 1usize, 2usize]];
        proof {
            assert(triangle_within(t@[0], 3));
        }
        return Ok(t);
    }
    if winding != Winding::CounterClockwise {
        return Err(TriangulationError::DegeneratePolygon);
    }
    let valid_diagonals = visibility_map_diagonals(polygon, n, visibility_map);
    // 2. Complete the triangulation along the non-crossing diagonals.
    triangulate_polygon_with_diagonals(polygon, n, valid_diagonals.as_slice())
}

/// Diagonal `d` joins vertices `a` and `b`.
pub open spec fn joins(d: Diagonal, a: usize, b: usize) -> bool {
    (d.u == a && d.v == b) || (d.u == b && d.v == a)
}

/// Chord `c` proposes diagonal `d`: it joins the vertex the chord starts
/// from and an end of the edge the chord hits.
pub open spec fn chord_proposes<P, S>(c: Chord<P, S>, d: Diagonal, n: int) -> bool {
    match c.origin_vertex {
        Some(u) => (u as int) < n && (c.hit_edge as int) < n && (joins(d, u, c.hit_edge) || joins(
            d,
            u,
            ((c.hit_edge + 1) % n) as usize,
        )),
        None => false,
    }
}

/// Diagonal `d` is proposed by one of the chords.
pub open spec fn proposed_by_chord<P, S>(d: Diagonal, chords: Seq<Chord<P, S>>, n: int) -> bool {
    exists|k: int| 0 <= k < chords.len() && #[trigger] chord_proposes(chords[k], d, n)
}

/// The diagonals of an `n`-gon that its visibility map yields (step 1 of
/// [`triangulate_from_visibility_map`]), each with its endpoints in order and
/// none listed twice.
pub fn visibility_map_diagonals<G: PolygonGeometry>(
    polygon: &G,
    n: usize,
    visibility_map: &Submap<G::Point, G::Scalar>,
) -> (d: Vec<Diagonal>)
    requires
        n >= 4,
    ensures
        d@.no_duplicates(),
        forall|j: int| 0 <= j < d@.len() ==> (#[trigger] d@[j]).u <= d@[j].v < n,
        forall|j: int| 0 <= j < d@.len() ==> proposed_by_chord(#[trigger] d@[j], visibility_map.chords@, n as int),
        d@.len() <= visibility_map.chords@.len(),
{
    let mut valid_diagonals: Vec<Diagonal> = Vec::new();
    // 1. Extract diagonals from the chords of the visibility map.
    let chords = &visibility_map.chords;
    let mut k: usize = 0;
    while k < chords.len()
        invariant
            k <= chords@.len(),
            n >= 4,
            valid_diagonals@.no_duplicates(),
            forall|j: int| 0 <= j < valid_diagonals@.len() ==> (#[trigger] valid_diagonals@[j]).u <= valid_diagonals@[j].v < n,
            forall|j: int| 0 <= j < valid_diagonals@.len() ==> proposed_by_chord(#[trigger] valid_diagonals@[j], chords@, n as int),
            valid_diagonals@.len() <= k,
        decreases chords@.len() - k,
    {
        let chord = chords[k];
        let ghost len0 = valid_diagonals@.len();
        if let Some(u) = chord.origin_vertex {
            if u < n && chord.hit_edge < n {
                let prev_u = if u == 0 { n - 1 } else { u - 1 };
                let next_u = if u + 1 == n { 0 } else { u + 1 };
                // Only vertices that are not strictly convex need a diagonal.
                if polygon.turn(prev_u, u, next_u) != Turn::Left {
                    let e1 = chord.hit_edge;
                    let e2 = if e1 + 1 == n { 0 } else { e1 + 1 };
                    let candidates = if polygon.hit_start_is_nearer(e1, chord.hit_pt) {
                        [e1, e2]
                    } else {
                        [e2, e1]
                    };
                    proof {
                        if e1 + 1 == n {
                            vstd::arithmetic::div_mod::lemma_mod_self_0(n as int);
                        } else {
                            vstd::arithmetic::div_mod::lemma_small_mod((e1 + 1) as nat, n as nat);
                        }
                    }
                    let mut ci: usize = 0;
                    while ci < 2
                        invariant
                            ci <= 2,
                            u < n,
                            candidates[0] < n,
                            candidates[1] < n,
                            valid_diagonals@.no_duplicates(),
                            forall|j: int| 0 <= j < valid_diagonals@.len() ==> (#[trigger] valid_diagonals@[j]).u <= valid_diagonals@[j].v < n,
                            k < chords@.len(),
                            chord == chords@[k as int],
                            chord.origin_vertex == Some(u),
                            e1 == chord.hit_edge,
                            e1 < n,
                            e2 as int == (e1 + 1) % (n as int),
                            (candidates[0] == e1 && candidates[1] == e2) || (candidates[0] == e2 && candidates[1] == e1),
                            forall|j: int| 0 <= j < valid_diagonals@.len() ==> proposed_by_chord(#[trigger] valid_diagonals@[j], chords@, n as int),
                            valid_diagonals@.len() == len0 || (valid_diagonals@.len() == len0 + 1 && ci == 2),
                            len0 <= k,
                        decreases 2 - ci,
                    {
                        let v = candidates[ci];
                        let diag = Diagonal::new(u, v);
                        let mut taken = false;
                        if !contains_diagonal(&valid_diagonals, diag) && polygon.is_valid_diagonal(u, v) {
                            if !crosses_any(polygon, diag, &valid_diagonals) {
                                proof {
                                    lemma_push_fresh(valid_diagonals@, diag);
                                    assert(chord_proposes(chords@[k as int], diag, n as int));
                                }
                                let ghost vd0 = valid_diagonals@;
                                valid_diagonals.push(diag);
                                proof {
                                    assert forall|j: int| 0 <= j < valid_diagonals@.len() implies proposed_by_chord(
                                        #[trigger] valid_diagonals@[j],
                                        chords@,
                                        n as int,
                                    ) by {
                                        if j < vd0.len() {
                                            assert(valid_diagonals@[j] == vd0[j]);
                                        }
                                    }
                                }
                                taken = true;
                            }
                        }
                        // One diagonal per chord suffices.
                        ci = if taken {
                            2
                        } else {
                            ci + 1
                        };
                    }
                }
            }
        }
        k += 1;
    }
    valid_diagonals
}

/// Appending a diagonal not yet listed keeps the list free of repeats.
pub(crate) proof fn lemma_push_fresh(ds: Seq<Diagonal>, d: Diagonal)
    requires
        ds.no_duplicates(),
        !ds.contains(d),
    ensures
        ds.push(d).no_duplicates(),
{
    let s = ds.push(d);
    assert forall|a: int, b: int| 0 <= a < s.len() && 0 <= b < s.len() && a != b implies #[trigger] s[a]
        != #[trigger] s[b] by {
        if a == ds.len() {
            assert(s[b] == ds[b]);
        } else if b == ds.len() {
            assert(s[a] == ds[a]);
        } else {
            assert(s[a] == ds[a]);
            assert(s[b] == ds[b]);
        }
    }
}

} // verus!
