//! The library's C-facing vocabulary: triangles with the C layout of three
//! `usize` words, status codes, the algorithm choice, and the decisions the
//! C entry points make before and after triangulating.
use vstd::prelude::*;
use crate::Algorithm;
use crate::monotone::TriangulationError;

verus! {

/// Triangle given by the indices of its three corners.
#[derive(Debug, Clone, Copy, PartialEq, Eq, Structural)]
pub struct ChazelleTriangle {
    pub a: usize,
    pub b: usize,
    pub c: usize,
}

/// The native-endian bytes of a sequence of `usize` words, as laid out in memory.
pub uninterp spec fn usize_slice_bytes(words: Seq<usize>) -> Seq<u8>;

/// Number of bytes of a `usize`.
pub open spec fn word_bytes() -> int {
    (usize::BITS / 8) as int
}

/// The bytes of the words, through `zerocopy::IntoBytes::as_bytes` on
/// `[usize]`: `words.len()` native-endian words laid end to end, word `k`
/// at bytes `k * word_bytes()` onwards.
#[verifier::external_body]
fn words_as_bytes(words: &[usize]) -> (bytes: Vec<u8>)
    ensures
        bytes@ == usize_slice_bytes(words@),
        bytes@.len() == words@.len() * word_bytes(),
        forall|k: int|
            0 <= k < words@.len() ==> bytes@.subrange(k * word_bytes(), k * word_bytes() + word_bytes())
                == usize_slice_bytes(seq![#[trigger] words@[k]]),
{
    zerocopy::IntoBytes::as_bytes(words).to_vec()
}

/// The words held by `bytes`, through `zerocopy::FromBytes::ref_from_bytes`
/// on `[usize]`. It fails when the length is not a whole number of words and
/// also when the buffer is not aligned for `usize`, which depends on where the
/// buffer lies in memory and is left unstated; what it returns has `bytes` as
/// its memory image, and so are the only words with that image.
#[verifier::external_body]
fn words_from_bytes(bytes: &[u8]) -> (words: Option<Vec<usize>>)
    ensures
        (bytes@.len() as int) % word_bytes() != 0 ==> words is None,
        words matches Some(w) ==> usize_slice_bytes(w@) == bytes@ && w@.len() * word_bytes()
            == bytes@.len(),
        words matches Some(w) ==> forall|ws: Seq<usize>|
            #[trigger] usize_slice_bytes(ws) == bytes@ ==> w@ == ws,
{
    match <[usize] as zerocopy::FromBytes>::ref_from_bytes(bytes) {
        Ok(w) => Some(w.to_vec()),
        Err(_) => None,
    }
}

/// The three corners of each triangle, in order, as one sequence of words.
pub open spec fn triangle_words(tris: Seq<ChazelleTriangle>) -> Seq<usize>
    decreases tris.len(),
{
    if tris.len() == 0 {
        Seq::empty()
    } else {
        triangle_words(tris.drop_last()) + seq![tris.last().a, tris.last().b, tris.last().c]
    }
}

proof fn lemma_triangle_words_len(tris: Seq<ChazelleTriangle>)
    ensures
        triangle_words(tris).len() == 3 * tris.len(),
    decreases tris.len(),
{
    if tris.len() > 0 {
        lemma_triangle_words_len(tris.drop_last());
    }
}

proof fn lemma_triangle_words_index(tris: Seq<ChazelleTriangle>, k: int)
    requires
        0 <= k < tris.len(),
    ensures
        triangle_words(tris).len() == 3 * tris.len(),
        triangle_words(tris)[3 * k] == tris[k].a,
        triangle_words(tris)[3 * k + 1] == tris[k].b,
        triangle_words(tris)[3 * k + 2] == tris[k].c,
    decreases tris.len(),
{
    lemma_triangle_words_len(tris);
    lemma_triangle_words_len(tris.drop_last());
    if k < tris.len() - 1 {
        lemma_triangle_words_index(tris.drop_last(), k);
        assert(tris.drop_last()[k] == tris[k]);
    }
}

/// Triangles with the same corner words are the same triangles.
proof fn lemma_triangle_words_injective(a: Seq<ChazelleTriangle>, b: Seq<ChazelleTriangle>)
    requires
        triangle_words(a) == triangle_words(b),
    ensures
        a == b,
{
    lemma_triangle_words_len(a);
    lemma_triangle_words_len(b);
    assert forall|k: int| 0 <= k < a.len() implies a[k] == b[k] by {
        lemma_triangle_words_index(a, k);
        lemma_triangle_words_index(b, k);
    }
    assert(a =~= b);
}

impl ChazelleTriangle {
    pub fn new(a: usize, b: usize, c: usize) -> (t: Self)
        ensures
            t == (ChazelleTriangle { a, b, c }),
    {
        Self { a, b, c }
    }

    /// The memory image of the triangles: their corners, three words each;
    /// corner `a` of triangle `k` is word `3 k`, `b` word `3 k + 1` and `c`
    /// word `3 k + 2`.
    pub fn slice_as_bytes(tris: &[ChazelleTriangle]) -> (bytes: Vec<u8>)
        ensures
            bytes@ == usize_slice_bytes(triangle_words(tris@)),
            bytes@.len() == 3 * tris@.len() * word_bytes(),
            forall|k: int|
                0 <= k < tris@.len() ==> {
                    let w = word_bytes();
                    let t = #[trigger] tris@[k];
                    &&& bytes@.subrange(3 * k * w, 3 * k * w + w) == usize_slice_bytes(seq![t.a])
                    &&& bytes@.subrange((3 * k + 1) * w, (3 * k + 1) * w + w) == usize_slice_bytes(seq![t.b])
                    &&& bytes@.subrange((3 * k + 2) * w, (3 * k + 2) * w + w) == usize_slice_bytes(seq![t.c])
                },
    {
        let mut words: Vec<usize> = Vec::new();
        let mut k: usize = 0;
        while k < tris.len()
            invariant
                k <= tris@.len(),
                words@ == triangle_words(tris@.take(k as int)),
            decreases tris@.len() - k,
        {
            let t = tris[k];
            proof {
                assert(tris@.take(k + 1).drop_last() =~= tris@.take(k as int));
                assert(tris@.take(k + 1).last() == t);
            }
            words.push(t.a);
            words.push(t.b);
            words.push(t.c);
            proof {
                assert(words@ =~= triangle_words(tris@.take(k as int)) + seq![t.a, t.b, t.c]);
            }
            k += 1;
        }
        proof {
            assert(tris@.take(tris@.len() as int) =~= tris@);
            lemma_triangle_words_len(tris@);
            vstd::arithmetic::mul::lemma_mul_is_associative(3, tris@.len() as int, word_bytes());
        }
        let bytes = words_as_bytes(words.as_slice());
        proof {
            assert forall|k: int| 0 <= k < tris@.len() implies {
                let w = word_bytes();
                let t = #[trigger] tris@[k];
                &&& bytes@.subrange(3 * k * w, 3 * k * w + w) == usize_slice_bytes(seq![t.a])
                &&& bytes@.subrange((3 * k + 1) * w, (3 * k + 1) * w + w) == usize_slice_bytes(seq![t.b])
                &&& bytes@.subrange((3 * k + 2) * w, (3 * k + 2) * w + w) == usize_slice_bytes(seq![t.c])
            } by {
                lemma_triangle_words_index(tris@, k);
                assert(words@[3 * k] == tris@[k].a);
                assert(words@[3 * k + 1] == tris@[k].b);
                assert(words@[3 * k + 2] == tris@[k].c);
            }
        }
        bytes
    }

    /// The triangles whose memory image is `bytes`: `None` when the length is
    /// not a whole number of triangles or the buffer is not aligned for `usize`
    /// (the words are read by `zerocopy`, and the rest is
    /// [`ChazelleTriangle::triangles_from_words`]).
    pub fn slice_from_bytes(bytes: &[u8]) -> (tris: Option<Vec<ChazelleTriangle>>)
        ensures
            (bytes@.len() as int) % (3 * word_bytes()) != 0 ==> tris is None,
            tris matches Some(t) ==> usize_slice_bytes(triangle_words(t@)) == bytes@,
            tris matches Some(t) ==> 3 * t@.len() * word_bytes() == bytes@.len(),
            tris matches Some(t) ==> forall|ts: Seq<ChazelleTriangle>|
                #[trigger] usize_slice_bytes(triangle_words(ts)) == bytes@ ==> t@ == ts,
    {
        let words = match words_from_bytes(bytes) {
            Some(w) => w,
            None => {
                return None;
            },
        };
        proof {
            assert(words@.len() * word_bytes() == bytes@.len());
            if words@.len() % 3 == 0 {
                vstd::arithmetic::div_mod::lemma_mod_multiples_basic(
                    (words@.len() / 3) as int,
                    3 * word_bytes(),
                );
                assert(words@.len() == 3 * (words@.len() / 3));
                vstd::arithmetic::mul::lemma_mul_is_associative(3, (words@.len() / 3) as int, word_bytes());
                vstd::arithmetic::mul::lemma_mul_is_commutative(3 * word_bytes(), (words@.len() / 3) as int);
                vstd::arithmetic::mul::lemma_mul_is_associative((words@.len() / 3) as int, 3, word_bytes());
                vstd::arithmetic::mul::lemma_mul_is_commutative((words@.len() / 3) as int, 3);
            }
        }
        let tris = Self::triangles_from_words(words.as_slice());
        proof {
            if tris is Some {
                let t = tris->0;
                lemma_triangle_words_len(t@);
                assert(words@.len() == 3 * t@.len());
                assert forall|ts: Seq<ChazelleTriangle>| #[trigger] usize_slice_bytes(triangle_words(ts))
                    == bytes@ implies t@ == ts by {
                    assert(words@ == triangle_words(ts));
                    lemma_triangle_words_injective(t@, ts);
                }
            }
        }
        tris
    }

    /// The triangles whose corners are `words`, three words each: `None`
    /// exactly when the number of words is not a multiple of three.
    pub fn triangles_from_words(words: &[usize]) -> (tris: Option<Vec<ChazelleTriangle>>)
        ensures
            tris is None <==> words@.len() % 3 != 0,
            tris matches Some(t) ==> triangle_words(t@) == words@,
    {
        if words.len() % 3 != 0 {
            return None;
        }
        let count = words.len() / 3;
        let mut tris: Vec<ChazelleTriangle> = Vec::with_capacity(count);
        let mut k: usize = 0;
        while k < count
            invariant
                k <= count,
                count * 3 == words@.len(),
                words@.len() == words.len(),
                tris@.len() == k,
                triangle_words(tris@) == words@.take(3 * k),
            decreases count - k,
        {
            let t = ChazelleTriangle { a: words[3 * k], b: words[3 * k + 1], c: words[3 * k + 2] };
            proof {
                assert(tris@.push(t).drop_last() =~= tris@);
                assert(words@.take(3 * k + 3) =~= words@.take(3 * k) + seq![t.a, t.b, t.c]);
            }
            tris.push(t);
            k += 1;
        }
        proof {
            assert(words@.take(3 * count) =~= words@);
        }
        Some(tris)
    }
}

/// The triangles as C triangles, corner for corner.
pub fn triangles_to_c(tris: &[[usize; 3]]) -> (r: Vec<ChazelleTriangle>)
    ensures
        r@.len() == tris@.len(),
        forall|k: int|
            0 <= k < r@.len() ==> #[trigger] r@[k] == (ChazelleTriangle {
                a: tris@[k][0],
                b: tris@[k][1],
                c: tris@[k][2],
            }),
{
    let mut r: Vec<ChazelleTriangle> = Vec::with_capacity(tris.len());
    let mut k: usize = 0;
    while k < tris.len()
        invariant
            k <= tris@.len(),
            r@.len() == k,
            forall|j: int|
                0 <= j < k ==> #[trigger] r@[j] == (ChazelleTriangle {
                    a: tris@[j][0],
                    b: tris@[j][1],
                    c: tris@[j][2],
                }),
        decreases tris@.len() - k,
    {
        let t = tris[k];
        r.push(ChazelleTriangle { a: t[0], b: t[1], c: t[2] });
        k += 1;
    }
    r
}

/// Status codes reported to C callers.
#[derive(Debug, Clone, Copy, PartialEq, Eq, Structural)]
pub enum ChazelleStatus {
    Success,
    ErrorInvalidArgument,
    ErrorPolygonTooSmall,
    ErrorDegenerate,
    ErrorInternal,
    ErrorBufferTooSmall,
}

/// Choice of polygon triangulation algorithm for C callers.
#[derive(Debug, Clone, Copy, PartialEq, Eq, Structural)]
pub enum ChazelleAlgorithm {
    /// Bernard Chazelle's deterministic linear-time algorithm.
    Chazelle,
    /// Classic plane-sweep monotone polygon decomposition in O(n log n).
    MonotoneSweep,
    /// Raimund Seidel's randomized incremental algorithm in O(n log* n).
    Seidel,
}

/// The algorithm a C caller selects.
pub open spec fn algorithm_of(a: ChazelleAlgorithm) -> Algorithm {
    match a {
        ChazelleAlgorithm::Chazelle => Algorithm::Chazelle,
        ChazelleAlgorithm::MonotoneSweep => Algorithm::MonotoneSweep,
        ChazelleAlgorithm::Seidel => Algorithm::Seidel,
    }
}

impl From<ChazelleAlgorithm> for Algorithm {
    fn from(a: ChazelleAlgorithm) -> (r: Self) {
        match a {
            ChazelleAlgorithm::Chazelle => Algorithm::Chazelle,
            ChazelleAlgorithm::MonotoneSweep => Algorithm::MonotoneSweep,
            ChazelleAlgorithm::Seidel => Algorithm::Seidel,
        }
    }
}

impl vstd::std_specs::convert::FromSpecImpl<ChazelleAlgorithm> for Algorithm {
    open spec fn obeys_from_spec() -> bool {
        true
    }

    open spec fn from_spec(a: ChazelleAlgorithm) -> Algorithm {
        algorithm_of(a)
    }
}

/// The status reported for a triangulation error.
pub open spec fn error_status(e: TriangulationError) -> ChazelleStatus {
    match e {
        TriangulationError::PolygonTooSmall => ChazelleStatus::ErrorPolygonTooSmall,
        TriangulationError::DegeneratePolygon => ChazelleStatus::ErrorDegenerate,
        TriangulationError::InternalError(_) => ChazelleStatus::ErrorInternal,
    }
}

pub fn status_of_error(e: &TriangulationError) -> (s: ChazelleStatus)
    ensures
        s == error_status(*e),
{
    match e {
        TriangulationError::PolygonTooSmall => ChazelleStatus::ErrorPolygonTooSmall,
        TriangulationError::DegeneratePolygon => ChazelleStatus::ErrorDegenerate,
        TriangulationError::InternalError(_) => ChazelleStatus::ErrorInternal,
    }
}

/// The checks an in-place triangulation makes before it starts: missing
/// pointers, fewer than three points, and an output buffer with room for
/// fewer than `num_points - 2` triangles are refused.
pub fn check_into_arguments(
    has_points: bool,
    has_output: bool,
    has_count: bool,
    num_points: usize,
    out_capacity: usize,
) -> (r: Option<ChazelleStatus>)
    ensures
        r == if !(has_points && has_output && has_count) {
            Some(ChazelleStatus::ErrorInvalidArgument)
        } else if num_points < 3 {
            Some(ChazelleStatus::ErrorPolygonTooSmall)
        } else if out_capacity < num_points - 2 {
            Some(ChazelleStatus::ErrorBufferTooSmall)
        } else {
            None::<ChazelleStatus>
        },
{
    if !has_points || !has_output || !has_count {
        return Some(ChazelleStatus::ErrorInvalidArgument);
    }
    if num_points < 3 {
        return Some(ChazelleStatus::ErrorPolygonTooSmall);
    }
    let required_triangles = num_points - 2;
    if out_capacity < required_triangles {
        return Some(ChazelleStatus::ErrorBufferTooSmall);
    }
    None
}

/// The checks an allocating triangulation makes before it starts.
pub fn check_alloc_arguments(has_points: bool, has_output: bool, has_count: bool, num_points: usize) -> (r:
    Option<ChazelleStatus>)
    ensures
        r == if !(has_points && has_output && has_count) {
            Some(ChazelleStatus::ErrorInvalidArgument)
        } else if num_points < 3 {
            Some(ChazelleStatus::ErrorPolygonTooSmall)
        } else {
            None::<ChazelleStatus>
        },
{
    if !has_points || !has_output || !has_count {
        return Some(ChazelleStatus::ErrorInvalidArgument);
    }
    if num_points < 3 {
        return Some(ChazelleStatus::ErrorPolygonTooSmall);
    }
    None
}

/// The status of an in-place triangulation: the triangles must fit the
/// caller's buffer of `out_capacity` triangles.
pub fn into_status(result: &Result<Vec<[usize; 3]>, TriangulationError>, out_capacity: usize) -> (s:
    ChazelleStatus)
    ensures
        s == match result {
            Ok(t) => if t@.len() > out_capacity {
                ChazelleStatus::ErrorBufferTooSmall
            } else {
                ChazelleStatus::Success
            },
            Err(e) => error_status(*e),
        },
{
    match result {
        Ok(tris) => if tris.len() > out_capacity {
            ChazelleStatus::ErrorBufferTooSmall
        } else {
            ChazelleStatus::Success
        },
        Err(e) => status_of_error(e),
    }
}

/// The status of an allocating triangulation.
pub fn alloc_status(result: &Result<Vec<[usize; 3]>, TriangulationError>) -> (s: ChazelleStatus)
    ensures
        s == match result {
            Ok(_) => ChazelleStatus::Success,
            Err(e) => error_status(*e),
        },
{
    match result {
        Ok(_) => ChazelleStatus::Success,
        Err(e) => status_of_error(e),
    }
}

} // verus!
