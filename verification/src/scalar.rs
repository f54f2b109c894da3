//! The arithmetic that tensors are computed with.
//!
//! Nothing here says what the operations return. A contract speaks of a result as one that the
//! operation can give on its arguments, and so holds for every arithmetic.
use vstd::prelude::*;

verus! {

/// Arithmetic on numbers of type `T`.
pub trait Arith<T> {
    /// Zero.
    fn zero() -> T;

    /// One.
    fn one() -> T;

    /// Less than every number.
    fn lowest() -> T;

    /// No number.
    fn undefined() -> T;

    /// `x + y`.
    fn plus(x: T, y: T) -> T;

    /// `x - y`.
    fn minus(x: T, y: T) -> T;

    /// `x * y`.
    fn times(x: T, y: T) -> T;

    /// `x / y`.
    fn over(x: T, y: T) -> T;

    /// `-x`.
    fn negated(x: T) -> T;

    /// Whether `x > y`.
    fn above(x: T, y: T) -> bool;

    /// Whether `x >= y`.
    fn at_least(x: T, y: T) -> bool;

    /// Whether `x == y`.
    fn same(x: T, y: T) -> bool;

    /// The greater of the two.
    fn greater(x: T, y: T) -> T;

    /// `x`, or `low` where it is less, or `high` where it is greater.
    fn held(x: T, low: T, high: T) -> T;

    /// The number nearest to `m` times ten to the power `e`.
    fn scientific(m: i64, e: i32) -> T;

    /// Absolute value.
    fn magnitude(x: T) -> T;

    /// Natural exponential.
    fn exponential(x: T) -> T;

    /// Natural logarithm.
    fn logarithm(x: T) -> T;

    /// Square root.
    fn root(x: T) -> T;

    /// Hyperbolic tangent.
    fn tangent(x: T) -> T;

    /// Sine.
    fn sine(x: T) -> T;

    /// Cosine.
    fn cosine(x: T) -> T;

    /// `x` to the power `p`.
    fn power(x: T, p: T) -> T;

    /// The number nearest to `n`.
    fn count(n: usize) -> T;

    /// The number nearest to `n / d`.
    fn ratio(n: i64, d: i64) -> T;
}

/// The number types of a tensor, and their arithmetic.
pub trait Scalars: Sized + Arith<<Self as Scalars>::F> + Arith<<Self as Scalars>::D> {
    /// 32-bit floats.
    type F: Copy + Send + Sync;

    /// 64-bit floats.
    type D: Copy + Send + Sync;

    /// A 32-bit float as a 64-bit one.
    fn widen(x: Self::F) -> Self::D;

    /// The 32-bit float nearest to a 64-bit one.
    fn narrow(x: Self::D) -> Self::F;

    /// The integer part of a 32-bit float.
    fn truncate_f32(x: Self::F) -> i64;

    /// The integer part of a 64-bit float.
    fn truncate_f64(x: Self::D) -> i64;

    /// The 32-bit float nearest to an integer.
    fn integer_f32(i: i64) -> Self::F;

    /// The 64-bit float nearest to an integer.
    fn integer_f64(i: i64) -> Self::D;

    /// The 64-bit float nearest to a natural number.
    fn natural_f64(n: u64) -> Self::D;
}

/// `z` is a zero.
pub open spec fn is_zero<T, A: Arith<T>>(z: T) -> bool {
    call_ensures(A::zero, (), z)
}

/// `u` is a one.
pub open spec fn is_one<T, A: Arith<T>>(u: T) -> bool {
    call_ensures(A::one, (), u)
}

/// `r` is `n / d`.
pub open spec fn is_ratio<T, A: Arith<T>>(n: i64, d: i64, r: T) -> bool {
    call_ensures(A::ratio, (n, d), r)
}

/// `r` is `x + y`.
pub open spec fn is_sum<T, A: Arith<T>>(x: T, y: T, r: T) -> bool {
    call_ensures(A::plus, (x, y), r)
}

/// `r` is `x - y`.
pub open spec fn is_difference<T, A: Arith<T>>(x: T, y: T, r: T) -> bool {
    call_ensures(A::minus, (x, y), r)
}

/// `r` is `x * y`.
pub open spec fn is_product<T, A: Arith<T>>(x: T, y: T, r: T) -> bool {
    call_ensures(A::times, (x, y), r)
}

/// `r` is `x / y`.
pub open spec fn is_quotient<T, A: Arith<T>>(x: T, y: T, r: T) -> bool {
    call_ensures(A::over, (x, y), r)
}

/// Addition, as a relation.
pub open spec fn adding<T, A: Arith<T>>() -> spec_fn(T, T, T) -> bool {
    |x: T, y: T, r: T| is_sum::<T, A>(x, y, r)
}

/// Subtraction, as a relation.
pub open spec fn subtracting<T, A: Arith<T>>() -> spec_fn(T, T, T) -> bool {
    |x: T, y: T, r: T| is_difference::<T, A>(x, y, r)
}

/// Multiplication, as a relation.
pub open spec fn multiplying<T, A: Arith<T>>() -> spec_fn(T, T, T) -> bool {
    |x: T, y: T, r: T| is_product::<T, A>(x, y, r)
}

/// Division, as a relation.
pub open spec fn dividing<T, A: Arith<T>>() -> spec_fn(T, T, T) -> bool {
    |x: T, y: T, r: T| is_quotient::<T, A>(x, y, r)
}

/// The running values of a fold: `acc[i]` is what `step` makes of `init` and those of the first
/// `i` items that `pick` names, taken in order.
pub open spec fn runs<T, X>(
    step: spec_fn(T, X, T) -> bool,
    xs: Seq<X>,
    pick: spec_fn(int) -> bool,
    n: int,
    init: T,
    acc: Seq<T>,
) -> bool {
    &&& acc.len() == n + 1
    &&& acc[0] == init
    &&& forall|i: int|
        0 <= i < n ==> if pick(i) {
            step(acc[i], xs[i], #[trigger] acc[i + 1])
        } else {
            acc[i + 1] == acc[i]
        }
}

/// `r` is what `step` makes of `init` and those of the first `n` items that `pick` names, taken
/// in order.
pub open spec fn folds<T, X>(
    step: spec_fn(T, X, T) -> bool,
    xs: Seq<X>,
    pick: spec_fn(int) -> bool,
    n: int,
    init: T,
    r: T,
) -> bool {
    exists|acc: Seq<T>| #[trigger] runs(step, xs, pick, n, init, acc) && acc[n] == r
}

/// Every item is picked.
pub open spec fn every() -> spec_fn(int) -> bool {
    |i: int| true
}

/// No item yet.
pub proof fn lemma_folds_start<T, X>(
    step: spec_fn(T, X, T) -> bool,
    xs: Seq<X>,
    pick: spec_fn(int) -> bool,
    init: T,
)
    ensures
        folds(step, xs, pick, 0, init, init),
{
    assert(runs(step, xs, pick, 0, init, seq![init]));
}

/// One more item.
pub proof fn lemma_folds_step<T, X>(
    step: spec_fn(T, X, T) -> bool,
    xs: Seq<X>,
    pick: spec_fn(int) -> bool,
    n: int,
    init: T,
    p: T,
    r: T,
)
    requires
        n >= 0,
        folds(step, xs, pick, n, init, p),
        if pick(n) {
            step(p, xs[n], r)
        } else {
            r == p
        },
    ensures
        folds(step, xs, pick, n + 1, init, r),
{
    let acc = choose|acc: Seq<T>| #[trigger] runs(step, xs, pick, n, init, acc) && acc[n] == p;
    let more = acc.push(r);
    assert forall|i: int| 0 <= i < n + 1 implies if pick(i) {
        step(more[i], xs[i], #[trigger] more[i + 1])
    } else {
        more[i + 1] == more[i]
    } by {
        if i < n {
            assert(more[i + 1] == acc[i + 1]);
            assert(more[i] == acc[i]);
        }
    }
    assert(runs(step, xs, pick, n + 1, init, more));
}

/// Items that are not picked, and items beyond `n`, do not matter.
pub proof fn lemma_folds_agree<T, X>(
    step: spec_fn(T, X, T) -> bool,
    xs: Seq<X>,
    ys: Seq<X>,
    pick: spec_fn(int) -> bool,
    pick2: spec_fn(int) -> bool,
    n: int,
    init: T,
    r: T,
)
    requires
        folds(step, xs, pick, n, init, r),
        forall|i: int| 0 <= i < n ==> #[trigger] pick(i) == pick2(i),
        forall|i: int| 0 <= i < n && #[trigger] pick(i) ==> xs[i] == ys[i],
    ensures
        folds(step, ys, pick2, n, init, r),
{
    let acc = choose|acc: Seq<T>| #[trigger] runs(step, xs, pick, n, init, acc) && acc[n] == r;
    assert forall|i: int| 0 <= i < n implies if pick2(i) {
        step(acc[i], ys[i], #[trigger] acc[i + 1])
    } else {
        acc[i + 1] == acc[i]
    } by {
        assert(pick(i) == pick2(i));
    }
    assert(runs(step, ys, pick2, n, init, acc));
}

} // verus!
