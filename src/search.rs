//! The integer side of the quantized shape-parameter search: the windows of
//! steps that are enumerated, the choice of the best candidate with a fixed
//! tie-break, and the two-stage decision between circle and rectangle.
//!
//! Scores enter as order keys: `score_key` of a score's IEEE-754 bit
//! pattern. Keys order non-negative scores as the scores themselves, so
//! comparing keys compares scores, and equal scores give equal keys.
use vstd::prelude::*;

verus! {

/// Why a search produced no candidate.
#[derive(Clone, Copy, Debug, PartialEq, Eq)]
pub enum SearchError {
    /// A window of steps with its start at or past its end.
    EmptyRange,
    /// A minimum was asked of no candidates.
    NoCandidates,
}

/// The two shape families.
#[derive(Clone, Copy, Debug, PartialEq, Eq)]
pub enum ShapeKind {
    Circle,
    Rectangle,
}

/// What follows the circle stage.
#[derive(Clone, Copy, Debug, PartialEq, Eq)]
pub enum Decision {
    /// The search is over, with this shape.
    Accept(ShapeKind),
    /// The rectangle stage must run.
    SearchRectangle,
}

/// The sign bit of an IEEE-754 double.
pub const SIGN_BIT: u64 = 0x8000_0000_0000_0000;

/// The order key of a floating-point bit pattern: negative values (sign bit
/// set) map below all others in reverse order of their bits, the rest above
/// them in order of their bits.
pub open spec fn key_of(bits: u64) -> int {
    if bits >= SIGN_BIT {
        u64::MAX - bits
    } else {
        bits + SIGN_BIT
    }
}

/// The order key of a score, given by its bit pattern.
pub fn score_key(bits: u64) -> (r: u64)
    ensures
        r == key_of(bits),
        bits < SIGN_BIT ==> r >= SIGN_BIT,
{
    if bits >= SIGN_BIT {
        u64::MAX - bits
    } else {
        bits + SIGN_BIT
    }
}

/// Keys keep the order of the bit patterns of non-negative values, which is
/// the order of the values themselves, and reverse that of negative ones.
pub proof fn lemma_key_order(x: u64, y: u64)
    ensures
        x < SIGN_BIT && y < SIGN_BIT ==> (key_of(x) < key_of(y) <==> x < y),
        x >= SIGN_BIT && y >= SIGN_BIT ==> (key_of(x) < key_of(y) <==> y < x),
        x >= SIGN_BIT && y < SIGN_BIT ==> key_of(x) < key_of(y),
        key_of(x) == key_of(y) <==> x == y,
{
}

/// The offsets `lo, lo + 1, ..., hi - 1`; empty when `lo >= hi`.
pub open spec fn steps(lo: i64, hi: i64) -> Seq<i64> {
    Seq::new(if lo < hi { (hi - lo) as nat } else { 0 }, |i: int| (lo + i) as i64)
}

/// The offsets `lo, lo + 1, ..., hi - 1` of a window of quantization steps
/// around an estimate; an empty window is an error.
pub fn quantized_offsets(lo: i64, hi: i64) -> (r: Result<Vec<i64>, SearchError>)
    ensures
        r is Ok <==> lo < hi,
        r is Err ==> r == Err::<Vec<i64>, SearchError>(SearchError::EmptyRange),
        r matches Ok(v) ==> v@ == steps(lo, hi),
{
    if lo >= hi {
        return Err(SearchError::EmptyRange);
    }
    let mut v: Vec<i64> = Vec::new();
    let mut x: i64 = lo;
    while x < hi
        invariant
            lo <= x <= hi,
            v@.len() == x - lo,
            forall|i: int| 0 <= i < v@.len() ==> v@[i] == lo + i,
        decreases hi - x,
    {
        v.push(x);
        x = x + 1;
    }
    assert(v@ =~= steps(lo, hi));
    Ok(v)
}

/// The tuples of `ps`, each extended by each value of `d`: the tuple at
/// `i * d.len() + j` is `ps[i]` followed by `d[j]`.
pub open spec fn extend_all(ps: Seq<Seq<i64>>, d: Seq<i64>) -> Seq<Seq<i64>> {
    Seq::new(ps.len() * d.len(), |n: int| ps[n / d.len() as int].push(d[n % d.len() as int]))
}

/// The Cartesian product of `dims` in lexicographic order of positions: the
/// last dimension varies fastest.
pub open spec fn product(dims: Seq<Seq<i64>>) -> Seq<Seq<i64>>
    decreases dims.len(),
{
    if dims.len() == 0 {
        seq![Seq::empty()]
    } else {
        extend_all(product(dims.drop_last()), dims.last())
    }
}

/// The views of a vector of tuples.
pub open spec fn tuples(v: Seq<Vec<i64>>) -> Seq<Seq<i64>> {
    v.map_values(|t: Vec<i64>| t@)
}

fn extend_tuple(t: &Vec<i64>, x: i64) -> (r: Vec<i64>)
    ensures
        r@ == t@.push(x),
{
    let mut r: Vec<i64> = Vec::new();
    let mut i: usize = 0;
    while i < t.len()
        invariant
            i <= t@.len(),
            r@ == t@.take(i as int),
        decreases t@.len() - i,
    {
        r.push(t[i]);
        i = i + 1;
        assert(r@ =~= t@.take(i as int));
    }
    r.push(x);
    assert(r@ =~= t@.push(x));
    r
}

fn extend_each(ps: &Vec<Vec<i64>>, d: &Vec<i64>) -> (r: Vec<Vec<i64>>)
    ensures
        tuples(r@) == extend_all(tuples(ps@), d@),
{
    let ghost w = d@.len() as int;
    let mut r: Vec<Vec<i64>> = Vec::new();
    let mut i: usize = 0;
    while i < ps.len()
        invariant
            w == d@.len(),
            i <= ps@.len(),
            r@.len() == i * w,
            forall|m: int|
                0 <= m < r@.len() ==> (#[trigger] r@[m])@ == ps@[m / w]@.push(d@[m % w]),
        decreases ps@.len() - i,
    {
        let mut j: usize = 0;
        while j < d.len()
            invariant
                w == d@.len(),
                i < ps@.len(),
                j <= w,
                r@.len() == i * w + j,
                forall|m: int|
                    0 <= m < r@.len() ==> (#[trigger] r@[m])@ == ps@[m / w]@.push(d@[m % w]),
            decreases w - j,
        {
            let t = extend_tuple(&ps[i], d[j]);
            proof {
                vstd::arithmetic::div_mod::lemma_fundamental_div_mod_converse(
                    i * w + j,
                    w,
                    i as int,
                    j as int,
                );
            }
            r.push(t);
            j = j + 1;
        }
        assert((i + 1) * w == i * w + w) by (nonlinear_arith);
        i = i + 1;
    }
    assert forall|m: int| 0 <= m < r@.len() implies 0 <= #[trigger] (m / w) < ps@.len() && 0 <= m % w < w by {
        vstd::arithmetic::div_mod::lemma_fundamental_div_mod(m, w);
        let q = m / w;
        let rem = m % w;
        assert(0 <= q < ps@.len()) by (nonlinear_arith)
            requires
                m == w * q + rem,
                0 <= rem < w,
                0 <= m < ps@.len() * w,
        ;
    }
    assert(tuples(r@) =~= extend_all(tuples(ps@), d@));
    r
}

/// All candidates of a search over the given windows of steps, as tuples of
/// offsets, one per window, in lexicographic order (the last window varies
/// fastest); an error when some window is empty.
pub fn candidate_offsets(windows: &Vec<(i64, i64)>) -> (r: Result<Vec<Vec<i64>>, SearchError>)
    ensures
        r is Ok <==> forall|i: int| 0 <= i < windows@.len() ==> (#[trigger] windows@[i]).0 < windows@[i].1,
        r is Err ==> r == Err::<Vec<Vec<i64>>, SearchError>(SearchError::EmptyRange),
        r matches Ok(v) ==> tuples(v@) == product(
            Seq::new(windows@.len(), |i: int| steps(windows@[i].0, windows@[i].1)),
        ),
{
    let ghost dims = Seq::new(windows@.len(), |i: int| steps(windows@[i].0, windows@[i].1));
    let mut acc: Vec<Vec<i64>> = Vec::new();
    acc.push(Vec::new());
    assert(tuples(acc@) =~= product(dims.take(0)));
    let mut i: usize = 0;
    while i < windows.len()
        invariant
            i <= windows@.len(),
            dims == Seq::new(windows@.len(), |i: int| steps(windows@[i].0, windows@[i].1)),
            forall|k: int| 0 <= k < i ==> (#[trigger] windows@[k]).0 < windows@[k].1,
            tuples(acc@) == product(dims.take(i as int)),
        decreases windows@.len() - i,
    {
        let (lo, hi) = windows[i];
        match quantized_offsets(lo, hi) {
            Ok(d) => {
                acc = extend_each(&acc, &d);
                assert(dims.take(i + 1).drop_last() =~= dims.take(i as int));
                i = i + 1;
            },
            Err(e) => {
                return Err(e);
            },
        }
    }
    assert(dims.take(i as int) =~= dims);
    Ok(acc)
}

/// The index of the least key, the earliest one where several are least;
/// an error when there are no keys.
pub fn argmin_first(keys: &Vec<u64>) -> (r: Result<usize, SearchError>)
    ensures
        r is Ok <==> keys@.len() > 0,
        r is Err ==> r == Err::<usize, SearchError>(SearchError::NoCandidates),
        r matches Ok(i) ==> {
            &&& i < keys@.len()
            &&& forall|j: int| 0 <= j < keys@.len() ==> keys@[i as int] <= keys@[j]
            &&& forall|j: int| 0 <= j < i ==> keys@[i as int] < keys@[j]
        },
{
    if keys.len() == 0 {
        return Err(SearchError::NoCandidates);
    }
    let mut best: usize = 0;
    let mut n: usize = 1;
    while n < keys.len()
        invariant
            1 <= n <= keys@.len(),
            best < n,
            forall|j: int| 0 <= j < n ==> keys@[best as int] <= keys@[j],
            forall|j: int| 0 <= j < best ==> keys@[best as int] < keys@[j],
        decreases keys@.len() - n,
    {
        if keys[n] < keys[best] {
            best = n;
        }
        n = n + 1;
    }
    Ok(best)
}

/// The decision after the circle stage: a circle whose score key is below
/// the acceptance key is taken at once, and the rectangle stage is skipped;
/// otherwise the rectangle stage must run.
pub fn after_circle_stage(circle_key: u64, accept_key: u64) -> (r: Decision)
    ensures
        circle_key < accept_key ==> r == Decision::Accept(ShapeKind::Circle),
        circle_key >= accept_key ==> r == Decision::SearchRectangle,
{
    if circle_key < accept_key {
        Decision::Accept(ShapeKind::Circle)
    } else {
        Decision::SearchRectangle
    }
}

/// The decision after both stages: the rectangle when its key is strictly
/// lower, the circle otherwise (ties go to the circle).
pub fn after_rectangle_stage(circle_key: u64, rect_key: u64) -> (r: ShapeKind)
    ensures
        r == (if rect_key < circle_key { ShapeKind::Rectangle } else { ShapeKind::Circle }),
{
    if rect_key < circle_key {
        ShapeKind::Rectangle
    } else {
        ShapeKind::Circle
    }
}

} // verus!
