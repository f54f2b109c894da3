//! Arithmetic without rounding beyond a ring: division, roots and the functions, and how they
//! change with their arguments.
use vstd::prelude::*;
use crate::algebra::{lemma_is_minus, lemma_undo, lemma_zero, multiple};
use crate::ring::{lemma_cancel, lemma_laws, Ring};
use crate::scalar::{is_quotient, is_ratio, Arith, Scalars};

verus! {

/// Division, negatives, roots and fractions are exact, and a factor other than zero can be
/// cancelled.
pub open spec fn exact<T, A: Arith<T>>(r: Ring<T>) -> bool {
    &&& r.computes::<A>()
    &&& cancels(r)
    &&& divides::<T, A>(r)
    &&& negates::<T, A>(r)
    &&& squares_back::<T, A>(r)
    &&& counts::<T, A>(r)
}

/// A factor other than zero can be cancelled.
#[verifier::opaque]
pub open spec fn cancels<T>(r: Ring<T>) -> bool {
    forall|x: T, y: T, z: T|
        #![trigger r.times(x, z), r.times(y, z)]
        z != r.zero && r.times(x, z) == r.times(y, z) ==> x == y
}

/// Division by a number other than zero undoes multiplication.
#[verifier::opaque]
pub open spec fn divides<T, A: Arith<T>>(r: Ring<T>) -> bool {
    forall|x: T, y: T, q: T| #[trigger]
        is_quotient::<T, A>(x, y, q) && y != r.zero ==> r.times(q, y) == x
}

/// A number and its negative add up to zero.
#[verifier::opaque]
pub open spec fn negates<T, A: Arith<T>>(r: Ring<T>) -> bool {
    forall|x: T, y: T| #[trigger]
        call_ensures(A::negated, (x,), y) ==> r.plus(y, x) == r.zero
}

/// A root squares back to its argument.
#[verifier::opaque]
pub open spec fn squares_back<T, A: Arith<T>>(r: Ring<T>) -> bool {
    forall|x: T, y: T| #[trigger] call_ensures(A::root, (x,), y) ==> r.times(y, y) == x
}

/// Whole numbers are so many ones, and a fraction times its denominator is its numerator.
#[verifier::opaque]
pub open spec fn counts<T, A: Arith<T>>(r: Ring<T>) -> bool {
    &&& forall|n: usize, c: T| #[trigger]
        call_ensures(A::count, (n,), c) ==> c == multiple(r, n as nat)
    &&& forall|n: i64, d: i64, q: T| #[trigger]
        is_ratio::<T, A>(n, d, q) && n >= 0 && d > 0 ==> r.times(q, multiple(r, d as nat))
            == multiple(r, n as nat)
}

/// Cancelling.
pub proof fn lemma_cancels<T>(r: Ring<T>, x: T, y: T, z: T)
    requires
        cancels(r),
        z != r.zero,
        r.times(x, z) == r.times(y, z),
    ensures
        x == y,
{
    reveal(cancels);
}

/// Dividing.
pub proof fn lemma_divides<T, A: Arith<T>>(r: Ring<T>, x: T, y: T, q: T)
    requires
        divides::<T, A>(r),
        is_quotient::<T, A>(x, y, q),
        y != r.zero,
    ensures
        r.times(q, y) == x,
{
    reveal(divides);
}

/// A negative is what is missing to zero.
pub proof fn lemma_negates<T, A: Arith<T>>(r: Ring<T>, x: T, y: T)
    requires
        r.lawful(),
        negates::<T, A>(r),
        call_ensures(A::negated, (x,), y),
    ensures
        r.plus(y, x) == r.zero,
        y == r.minus(r.zero, x),
{
    reveal(negates);
    lemma_is_minus(r, r.zero, x, y);
}

/// Squaring a root.
pub proof fn lemma_squares_back<T, A: Arith<T>>(r: Ring<T>, x: T, y: T)
    requires
        squares_back::<T, A>(r),
        call_ensures(A::root, (x,), y),
    ensures
        r.times(y, y) == x,
{
    reveal(squares_back);
}

/// A whole number.
pub proof fn lemma_counts<T, A: Arith<T>>(r: Ring<T>, n: usize, c: T)
    requires
        counts::<T, A>(r),
        call_ensures(A::count, (n,), c),
    ensures
        c == multiple(r, n as nat),
{
    reveal(counts);
}

/// A fraction.
pub proof fn lemma_ratio<T, A: Arith<T>>(r: Ring<T>, n: i64, d: i64, q: T)
    requires
        counts::<T, A>(r),
        is_ratio::<T, A>(n, d, q),
        n >= 0,
        d > 0,
    ensures
        r.times(q, multiple(r, d as nat)) == multiple(r, n as nat),
{
    reveal(counts);
}

/// A small change of every number that sums and products follow: a derivation.
#[verifier::reject_recursive_types(T)]
pub ghost struct Change<T> {
    pub of: spec_fn(T) -> T,
}

impl<T> Change<T> {
    /// How `x` changes.
    pub open spec fn at(self, x: T) -> T {
        (self.of)(x)
    }

    /// The change of a sum is the sum of the changes.
    #[verifier::opaque]
    pub open spec fn adds(self, r: Ring<T>) -> bool {
        forall|x: T, y: T| #[trigger]
            self.at(r.plus(x, y)) == r.plus(self.at(x), self.at(y))
    }

    /// The product rule.
    #[verifier::opaque]
    pub open spec fn multiplies(self, r: Ring<T>) -> bool {
        forall|x: T, y: T| #[trigger]
            self.at(r.times(x, y)) == r.plus(
                r.times(self.at(x), y),
                r.times(x, self.at(y)),
            )
    }

    /// Fractions do not change.
    #[verifier::opaque]
    pub open spec fn keeps_fractions<A: Arith<T>>(self, r: Ring<T>) -> bool {
        forall|n: i64, d: i64, q: T| #[trigger]
            is_ratio::<T, A>(n, d, q) ==> self.at(q) == r.zero
    }

    /// The hyperbolic tangent changes by one less its square.
    #[verifier::opaque]
    pub open spec fn bends<A: Arith<T>>(self, r: Ring<T>) -> bool {
        forall|x: T, y: T| #[trigger]
            call_ensures(A::tangent, (x,), y) ==> self.at(y) == r.times(
                r.minus(r.one, r.times(y, y)),
                self.at(x),
            )
    }

    /// The exponential changes by itself.
    #[verifier::opaque]
    pub open spec fn grows<A: Arith<T>>(self, r: Ring<T>) -> bool {
        forall|x: T, y: T| #[trigger]
            call_ensures(A::exponential, (x,), y) ==> self.at(y) == r.times(y, self.at(x))
    }

    /// The logarithm changes by one over its argument.
    #[verifier::opaque]
    pub open spec fn slows<A: Arith<T>>(self, r: Ring<T>) -> bool {
        forall|x: T, y: T| #[trigger]
            call_ensures(A::logarithm, (x,), y) ==> r.times(x, self.at(y)) == self.at(x)
    }

    /// Quotients and roots of what does not change do not change.
    #[verifier::opaque]
    pub open spec fn rests<A: Arith<T>>(self, r: Ring<T>) -> bool {
        &&& forall|x: T, y: T, q: T| #[trigger]
            is_quotient::<T, A>(x, y, q) && self.at(x) == r.zero && self.at(y) == r.zero
                ==> self.at(q) == r.zero
        &&& forall|x: T, y: T| #[trigger]
            call_ensures(A::root, (x,), y) && self.at(x) == r.zero ==> self.at(y) == r.zero
    }

    /// The rules of differentiation.
    pub open spec fn follows<A: Arith<T>>(self, r: Ring<T>) -> bool {
        &&& self.adds(r)
        &&& self.multiplies(r)
        &&& self.keeps_fractions::<A>(r)
        &&& self.bends::<A>(r)
        &&& self.grows::<A>(r)
        &&& self.slows::<A>(r)
        &&& self.rests::<A>(r)
    }
}

/// Each operation gives one value.
#[verifier::opaque]
pub open spec fn single<T, A: Arith<T>>() -> bool {
    &&& forall|x: T, y: T, z: T|
        #![trigger call_ensures(A::tangent, (x,), y), call_ensures(A::tangent, (x,), z)]
        call_ensures(A::tangent, (x,), y) && call_ensures(A::tangent, (x,), z) ==> y == z
    &&& forall|x: T, y: T, z: T|
        #![trigger call_ensures(A::exponential, (x,), y), call_ensures(A::exponential, (x,), z)]
        call_ensures(A::exponential, (x,), y) && call_ensures(A::exponential, (x,), z) ==> y == z
    &&& forall|x: T, y: T, z: T|
        #![trigger call_ensures(A::root, (x,), y), call_ensures(A::root, (x,), z)]
        call_ensures(A::root, (x,), y) && call_ensures(A::root, (x,), z) ==> y == z
    &&& forall|x: T, y: T, z: T|
        #![trigger call_ensures(A::negated, (x,), y), call_ensures(A::negated, (x,), z)]
        call_ensures(A::negated, (x,), y) && call_ensures(A::negated, (x,), z) ==> y == z
    &&& forall|n: i64, d: i64, y: T, z: T|
        #![trigger is_ratio::<T, A>(n, d, y), is_ratio::<T, A>(n, d, z)]
        is_ratio::<T, A>(n, d, y) && is_ratio::<T, A>(n, d, z) ==> y == z
    &&& forall|a: T, b: T, y: T, z: T|
        #![trigger is_quotient::<T, A>(a, b, y), is_quotient::<T, A>(a, b, z)]
        is_quotient::<T, A>(a, b, y) && is_quotient::<T, A>(a, b, z) ==> y == z
}

/// Exponentials of opposite numbers are reciprocal, and none is zero or the negative of one.
#[verifier::opaque]
pub open spec fn powers<T, A: Arith<T>>(r: Ring<T>) -> bool {
    &&& forall|x: T, y: T, a: T, b: T|
        #![trigger call_ensures(A::exponential, (x,), a), call_ensures(A::exponential, (y,), b)]
        call_ensures(A::exponential, (x,), a) && call_ensures(A::exponential, (y,), b) && r.plus(
            x,
            y,
        ) == r.zero ==> r.times(a, b) == r.one
    &&& forall|x: T, a: T| #[trigger]
        call_ensures(A::exponential, (x,), a) ==> a != r.zero && r.plus(r.one, a) != r.zero
}

/// The number is an exponential.
pub open spec fn grown<T, A: Arith<T>>(y: T) -> bool {
    exists|x: T| #[trigger] call_ensures(A::exponential, (x,), y)
}

/// The number has an exponential.
pub open spec fn grows<T, A: Arith<T>>(x: T) -> bool {
    exists|y: T| #[trigger] call_ensures(A::exponential, (x,), y)
}

/// Every number of the list is an exponential.
pub open spec fn all_grown<T, A: Arith<T>>(e: Seq<T>) -> bool {
    forall|i: int| 0 <= i < e.len() ==> grown::<T, A>(#[trigger] e[i])
}

/// The exponential of a sum is the product of the exponentials, the exponential undoes the
/// logarithm, and exponentials do not add up to zero.
#[verifier::opaque]
pub open spec fn exponents<T, A: Arith<T>>(r: Ring<T>) -> bool {
    &&& forall|x: T, y: T, a: T, b: T, c: T|
        #![trigger call_ensures(A::exponential, (x,), a), call_ensures(A::exponential, (y,), b),
            call_ensures(A::exponential, (r.plus(x, y),), c)]
        call_ensures(A::exponential, (x,), a) && call_ensures(A::exponential, (y,), b)
            && call_ensures(A::exponential, (r.plus(x, y),), c) ==> c == r.times(a, b)
    &&& forall|x: T, y: T| #[trigger]
        call_ensures(A::logarithm, (x,), y) ==> call_ensures(A::exponential, (y,), x)
    &&& forall|e: Seq<T>, pick: spec_fn(int) -> bool, at: int|
        #![trigger r.total(e, pick, e.len() as int), pick(at)]
        0 <= at < e.len() && pick(at) && all_grown::<T, A>(e) ==> r.total(
            e,
            pick,
            e.len() as int,
        ) != r.zero
}

/// The exponential of a sum.
pub proof fn lemma_exponents<T, A: Arith<T>>(r: Ring<T>, x: T, y: T, z: T, a: T, b: T, c: T)
    requires
        exponents::<T, A>(r),
        z == r.plus(x, y),
        call_ensures(A::exponential, (x,), a),
        call_ensures(A::exponential, (y,), b),
        call_ensures(A::exponential, (z,), c),
    ensures
        c == r.times(a, b),
{
    reveal(exponents);
}

/// Comparisons go by the order `gt`, in which no number is above a number that is above it.
#[verifier::opaque]
pub open spec fn orders<T, A: Arith<T>>(r: Ring<T>, gt: spec_fn(T, T) -> bool) -> bool {
    &&& forall|x: T, y: T| #[trigger] gt(x, y) ==> !gt(y, x)
    &&& forall|x: T, y: T, b: bool| #[trigger]
        call_ensures(A::above, (x, y), b) ==> b == gt(x, y)
    &&& forall|x: T, y: T, b: bool| #[trigger]
        call_ensures(A::at_least, (x, y), b) ==> b == !gt(y, x)
    &&& forall|x: T, y: T, m: T| #[trigger]
        call_ensures(A::greater, (x, y), m) ==> m == if gt(x, y) {
            x
        } else {
            y
        }
    &&& forall|x: T, low: T, high: T, m: T| #[trigger]
        call_ensures(A::held, (x, low, high), m) ==> m == if gt(low, x) {
            low
        } else if gt(x, high) {
            high
        } else {
            x
        }
    &&& forall|x: T, m: T| #[trigger]
        call_ensures(A::magnitude, (x,), m) ==> m == if gt(x, r.zero) {
            x
        } else {
            r.minus(r.zero, x)
        }
}

/// The change of a sum, a difference and a product.
pub proof fn lemma_change<T>(r: Ring<T>, d: Change<T>, x: T, y: T)
    requires
        r.lawful(),
        d.adds(r),
        d.multiplies(r),
    ensures
        d.at(r.plus(x, y)) == r.plus(d.at(x), d.at(y)),
        d.at(r.minus(x, y)) == r.minus(d.at(x), d.at(y)),
        d.at(r.times(x, y)) == r.plus(r.times(d.at(x), y), r.times(x, d.at(y))),
        d.at(r.zero) == r.zero,
        d.at(r.one) == r.zero,
{
    assert(d.at(r.plus(x, y)) == r.plus(d.at(x), d.at(y))) by {
        reveal(Change::adds);
    }
    let z = r.minus(x, y);
    assert(d.at(r.plus(z, y)) == r.plus(d.at(z), d.at(y))) by {
        reveal(Change::adds);
    }
    lemma_laws(r, x, y, y);
    lemma_is_minus(r, d.at(x), d.at(y), d.at(z));
    assert(d.at(r.times(x, y)) == r.plus(r.times(d.at(x), y), r.times(x, d.at(y)))) by {
        reveal(Change::multiplies);
    }
    let o = r.zero;
    assert(d.at(r.plus(o, o)) == r.plus(d.at(o), d.at(o))) by {
        reveal(Change::adds);
    }
    lemma_zero(r, o);
    lemma_zero(r, d.at(o));
    lemma_cancel(r, d.at(o), o, d.at(o));
    let u = r.one;
    assert(d.at(r.times(u, u)) == r.plus(r.times(d.at(u), u), r.times(u, d.at(u)))) by {
        reveal(Change::multiplies);
    }
    lemma_zero(r, u);
    lemma_zero(r, d.at(u));
    lemma_cancel(r, d.at(u), o, d.at(u));
}

/// The changes of the functions.
pub proof fn lemma_function<T, A: Arith<T>>(r: Ring<T>, d: Change<T>, x: T, y: T)
    requires
        d.follows::<A>(r),
    ensures
        call_ensures(A::tangent, (x,), y) ==> d.at(y) == r.times(
            r.minus(r.one, r.times(y, y)),
            d.at(x),
        ),
        call_ensures(A::exponential, (x,), y) ==> d.at(y) == r.times(y, d.at(x)),
        call_ensures(A::logarithm, (x,), y) ==> r.times(x, d.at(y)) == d.at(x),
{
    reveal(Change::bends);
    reveal(Change::grows);
    reveal(Change::slows);
}

/// A fraction does not change.
pub proof fn lemma_constant<T, A: Arith<T>>(r: Ring<T>, d: Change<T>, n: i64, m: i64, q: T)
    requires
        d.follows::<A>(r),
        is_ratio::<T, A>(n, m, q),
    ensures
        d.at(q) == r.zero,
{
    reveal(Change::keeps_fractions);
}

/// Narrowing keeps sums and products: it gives `to` of its argument.
#[verifier::opaque]
pub open spec fn carries<S: Scalars>(
    r: Ring<S::F>,
    q: Ring<S::D>,
    to: spec_fn(S::D) -> S::F,
) -> bool {
    &&& forall|x: S::D, y: S::F| #[trigger] call_ensures(S::narrow, (x,), y) ==> y == to(x)
    &&& to(q.zero) == r.zero
    &&& to(q.one) == r.one
    &&& forall|x: S::D, y: S::D| to(#[trigger] q.plus(x, y)) == r.plus(to(x), to(y))
    &&& forall|x: S::D, y: S::D| to(#[trigger] q.times(x, y)) == r.times(to(x), to(y))
}

/// What narrowing keeps.
pub proof fn lemma_carries<S: Scalars>(
    r: Ring<S::F>,
    q: Ring<S::D>,
    to: spec_fn(S::D) -> S::F,
    x: S::D,
    y: S::D,
)
    requires
        r.lawful(),
        q.lawful(),
        carries::<S>(r, q, to),
    ensures
        forall|u: S::D, v: S::F| #[trigger] call_ensures(S::narrow, (u,), v) ==> v == to(u),
        to(q.zero) == r.zero,
        to(q.one) == r.one,
        to(q.plus(x, y)) == r.plus(to(x), to(y)),
        to(q.minus(x, y)) == r.minus(to(x), to(y)),
        to(q.times(x, y)) == r.times(to(x), to(y)),
{
    reveal(carries);
    let z = q.minus(x, y);
    lemma_undo(q, x, y);
    assert(to(q.plus(z, y)) == r.plus(to(z), to(y)));
    lemma_is_minus(r, to(x), to(y), to(z));
}

/// Narrowing keeps whole numbers.
pub proof fn lemma_carries_multiple<S: Scalars>(
    r: Ring<S::F>,
    q: Ring<S::D>,
    to: spec_fn(S::D) -> S::F,
    n: nat,
)
    requires
        r.lawful(),
        q.lawful(),
        carries::<S>(r, q, to),
    ensures
        to(multiple(q, n)) == multiple(r, n),
    decreases n,
{
    lemma_carries::<S>(r, q, to, q.zero, q.zero);
    if n > 0 {
        lemma_carries_multiple::<S>(r, q, to, (n - 1) as nat);
        lemma_carries::<S>(r, q, to, multiple(q, (n - 1) as nat), q.one);
    }
}

} // verus!
